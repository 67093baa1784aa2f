//! Making puzzles: fill an empty board by solving it at random, then take
//! givens away, one at a time or together with their partners under a
//! symmetry, for as long as the puzzle keeps its single solution.

use vstd::prelude::*;
use vstd::set_lib::lemma_len_subset;
use crate::{Board, QQWing};
use crate::counter::{lemma_solutions_finite, solutions};
use crate::grid::{
    column_of,
    house_cell,
    house_of,
    lemma_cell_digits,
    peers,
    row_of,
    House,
};
use crate::laws::{lemma_free_cells, lemma_solved_admits};
use crate::state::{
    clashes,
    consistent,
    occurs,
    solves,
    standing_givens,
    valid_grid,
    zeros_below,
};
use crate::symmetry::Symmetry;
use crate::{BOARD_SIZE, ROW_COL_SEC_SIZE, UNSET_VALUE};

verus! {

/// A complete grid that is valid: each row is the row above shifted by
/// three, and each band the band above shifted by one.
pub open spec fn pattern_grid() -> Seq<u8> {
    Seq::new(81, |p: int| ((3 * row_of(p) + row_of(p) / 3 + column_of(p)) % 9 + 1) as u8)
}

/// The pattern grid is valid, so valid grids exist.
pub proof fn lemma_pattern_valid()
    ensures
        valid_grid(pattern_grid()),
{
    let g = pattern_grid();
    assert forall|p: int, q: int| 0 <= p < 81 && 0 <= q < 81 && peers(p, q) implies #[trigger] g[p]
        != #[trigger] g[q] by {
        lemma_pattern_differs(p, q);
    }
}

/// Numbers with the same remainder that lie less than nine apart are equal.
pub proof fn lemma_mod_close(u: int, v: int)
    requires
        u % 9 == v % 9,
        -9 < u - v < 9,
    ensures
        u == v,
{
}

/// The sum that the pattern grid takes the remainder of, for the cell in
/// band `a`, stack `b`, row `i` and column `j` of its section.
pub open spec fn pattern_sum(a: int, b: int, i: int, j: int) -> int {
    3 * (3 * a + i) + a + (3 * b + j)
}

/// The pattern sums of two cells of a house leave different remainders.
pub proof fn lemma_sums_differ(a: int, b: int, i: int, j: int, c: int, d: int, k: int, l: int)
    requires
        0 <= a < 3 && 0 <= b < 3 && 0 <= i < 3 && 0 <= j < 3,
        0 <= c < 3 && 0 <= d < 3 && 0 <= k < 3 && 0 <= l < 3,
        a != c || b != d || i != k || j != l,
        (a == c && i == k) || (b == d && j == l) || (a == c && b == d),
    ensures
        pattern_sum(a, b, i, j) % 9 != pattern_sum(c, d, k, l) % 9,
{
    let u = pattern_sum(a, b, i, j);
    let v = pattern_sum(c, d, k, l);
    if u % 9 == v % 9 {
        if a == c && i == k {
            lemma_mod_close(u, v);
        } else if a == c && b == d {
            lemma_mod_close(u, v);
        } else {
            let x = u - 9 * a;
            let y = v - 9 * c;
            assert(y % 9 == v % 9);
            lemma_mod_close(x, y);
        }
    }
}

/// The pattern grid holds different values in two cells of a house.
pub proof fn lemma_pattern_differs(p: int, q: int)
    requires
        0 <= p < 81,
        0 <= q < 81,
        peers(p, q),
    ensures
        pattern_grid()[p] != pattern_grid()[q],
{
    lemma_cell_digits(p);
    lemma_cell_digits(q);
    let a = p / 27;
    let b = (p % 9) / 3;
    let i = (p / 9) % 3;
    let j = (p % 9) % 3;
    let c = q / 27;
    let d = (q % 9) / 3;
    let k = (q / 9) % 3;
    let l = (q % 9) % 3;
    crate::grid::lemma_section_digits(a, b, i, j);
    crate::grid::lemma_section_digits(c, d, k, l);
    lemma_sums_differ(a, b, i, j, c, d, k, l);
}

/// The cell in row `s` and column `t` is the cell in row `r` and column `c`
/// or one of its partners under a symmetry. A quarter turn has three
/// partners: the cells a quarter, a half and three quarters of a turn on. A
/// half turn, a mirroring and a flip have one.
pub open spec fn turned(symmetry: Symmetry, r: int, c: int, s: int, t: int) -> bool {
    (s == r && t == c) || match symmetry {
        Symmetry::ROTATE90 => (s == 8 - c && t == r) || (s == 8 - r && t == 8 - c) || (s == c && t
            == 8 - r),
        Symmetry::ROTATE180 => s == 8 - r && t == 8 - c,
        Symmetry::MIRROR => s == r && t == 8 - c,
        Symmetry::FLIP => s == 8 - r && t == c,
        _ => false,
    }
}

/// The cell `q` is cleared together with the cell `p` under a symmetry: it is
/// `p` itself or one of its partners.
#[verifier::opaque]
pub open spec fn cleared_with(symmetry: Symmetry, p: int, q: int) -> bool {
    turned(symmetry, row_of(p), column_of(p), row_of(q), column_of(q))
}

/// The puzzle without the given at `p` and those cleared with it.
pub open spec fn without(puzzle: Seq<u8>, symmetry: Symmetry, p: int) -> Seq<u8> {
    Seq::new(81, |q: int| if cleared_with(symmetry, p, q) { 0u8 } else { puzzle[q] })
}

/// The given at `p` is needed: without it and those cleared with it the
/// puzzle has more than one solution.
pub open spec fn needed(puzzle: Seq<u8>, symmetry: Symmetry, p: int) -> bool {
    solutions(without(puzzle, symmetry, p)).len() >= 2
}

/// Every given that one puzzle holds the other holds too.
pub open spec fn within(small: Seq<u8>, large: Seq<u8>) -> bool {
    forall|p: int| 0 <= p < 81 && small[p] != 0 ==> #[trigger] small[p] == large[p]
}

/// The givens keep the symmetry: a cell holds a given exactly if each of its
/// partners does.
pub open spec fn symmetric(puzzle: Seq<u8>, symmetry: Symmetry) -> bool {
    forall|p: int, q: int|
        0 <= p < 81 && 0 <= q < 81 && #[trigger] cleared_with(symmetry, p, q) ==> (puzzle[p] != 0
            <==> puzzle[q] != 0)
}

/// A puzzle that a valid grid solves is consistent, so all its givens stand.
pub proof fn lemma_solvable_consistent(puzzle: Seq<u8>, g: Seq<u8>)
    requires
        puzzle.len() == 81,
        solves(g, puzzle),
    ensures
        consistent(puzzle),
        standing_givens(puzzle) == puzzle,
{
    assert forall|p: int| 0 <= p < 81 implies !#[trigger] clashes(puzzle, p) by {
        if clashes(puzzle, p) {
            let q = choose|q: int| 0 <= q < p && #[trigger] puzzle[q] == puzzle[p] && peers(q, p);
            assert(g[p] == puzzle[p]);
            assert(g[q] == puzzle[q]);
        }
    }
    crate::board::lemma_first_clash_none(puzzle, 0);
}

/// A puzzle with fewer givens has no fewer solutions.
pub proof fn lemma_fewer_givens(small: Seq<u8>, large: Seq<u8>)
    requires
        within(small, large),
    ensures
        solutions(large).subset_of(solutions(small)),
        solutions(large).len() <= solutions(small).len(),
{
    assert forall|g: Seq<u8>| solutions(large).contains(g) implies solutions(small).contains(g) by {
        assert forall|p: int| 0 <= p < 81 && small[p] != 0 implies #[trigger] g[p] == small[p] by {}
    }
    lemma_solutions_finite(small);
    lemma_len_subset(solutions(large), solutions(small));
}

/// A puzzle that holds some givens of a valid grid and has one solution has
/// that grid for its solution.
pub proof fn lemma_single_solution(puzzle: Seq<u8>, grid: Seq<u8>)
    requires
        valid_grid(grid),
        within(puzzle, grid),
        solutions(puzzle).len() == 1,
    ensures
        solutions(puzzle) == Set::<Seq<u8>>::empty().insert(grid),
{
    lemma_solutions_finite(puzzle);
    assert(solutions(puzzle).contains(grid)) by {
        assert forall|p: int| 0 <= p < 81 && puzzle[p] != 0 implies #[trigger] grid[p]
            == puzzle[p] by {}
    }
    let rest = solutions(puzzle).remove(grid);
}

/// Taking givens away from a puzzle leaves a puzzle within it, and within
/// whatever the puzzle was within.
pub proof fn lemma_without_within(puzzle: Seq<u8>, symmetry: Symmetry, p: int, grid: Seq<u8>)
    requires
        puzzle.len() == 81,
        within(puzzle, grid),
    ensures
        within(without(puzzle, symmetry, p), puzzle),
        within(without(puzzle, symmetry, p), grid),
{
    let less = without(puzzle, symmetry, p);
    assert forall|q: int| 0 <= q < 81 && less[q] != 0 implies #[trigger] less[q] == grid[q] by {}
}

/// A given that is needed in a puzzle is needed in every puzzle within it.
pub proof fn lemma_needed_within(small: Seq<u8>, large: Seq<u8>, symmetry: Symmetry, p: int)
    requires
        small.len() == 81,
        large.len() == 81,
        within(small, large),
        needed(large, symmetry, p),
    ensures
        needed(small, symmetry, p),
{
    let a = without(small, symmetry, p);
    let b = without(large, symmetry, p);
    assert forall|q: int| 0 <= q < 81 && a[q] != 0 implies #[trigger] a[q] == b[q] by {}
    lemma_fewer_givens(a, b);
}

impl QQWing {
    /// Rolls back every even round from 2 up to the round in which the solver
    /// was last entered: the cells filled by logic rather than by guess become
    /// free again, and what logic ruled out becomes open again.
    pub fn rollback_non_guesses(&mut self)
        ensures
            final(self)@ == unwound(old(self)@, 2, old(self)@.last_solve_round as int),
            final(self)@.same_setup(old(self)@),
            final(self)@.last_solve_round == old(self)@.last_solve_round,
            forall|p: int|
                0 <= p < 81 ==> #[trigger] final(self)@.solution[p] == (if rolled(
                    old(self)@.solution_round[p],
                    old(self)@.last_solve_round,
                ) {
                    0u8
                } else {
                    old(self)@.solution[p]
                }),
            forall|p: int|
                0 <= p < 81 ==> #[trigger] final(self)@.solution_round[p] == (if rolled(
                    old(self)@.solution_round[p],
                    old(self)@.last_solve_round,
                ) {
                    0u8
                } else {
                    old(self)@.solution_round[p]
                }),
            forall|i: int|
                0 <= i < 729 ==> #[trigger] final(self)@.possibilities[i] == (if rolled(
                    old(self)@.possibilities[i],
                    old(self)@.last_solve_round,
                ) {
                    0u8
                } else {
                    old(self)@.possibilities[i]
                }),
            !old(self)@.record_history ==> final(self)@.solve_history == old(self)@.solve_history,
            old(self)@.solve_instructions.len() == 0 ==> final(self)@.solve_instructions.len() == 0,
    {
        let last = self.last_solve_round as u16;
        let mut i: u16 = 2;
        // Guesses are odd rounds
        // Non-guesses are even rounds
        while i <= last
            invariant
                2 <= i,
                i <= last + 1 || last < 2,
                last < 2 ==> i == 2,
                last == old(self)@.last_solve_round,
                unwound(self@, i as int, last as int) == unwound(old(self)@, 2, last as int),
                self@.same_setup(old(self)@),
                self@.last_solve_round == old(self)@.last_solve_round,
                forall|p: int|
                    0 <= p < 81 ==> #[trigger] self@.solution[p] == (if rolled_before(
                        old(self)@.solution_round[p],
                        i as int,
                    ) {
                        0u8
                    } else {
                        old(self)@.solution[p]
                    }),
                forall|p: int|
                    0 <= p < 81 ==> #[trigger] self@.solution_round[p] == (if rolled_before(
                        old(self)@.solution_round[p],
                        i as int,
                    ) {
                        0u8
                    } else {
                        old(self)@.solution_round[p]
                    }),
                forall|k: int|
                    0 <= k < 729 ==> #[trigger] self@.possibilities[k] == (if rolled_before(
                        old(self)@.possibilities[k],
                        i as int,
                    ) {
                        0u8
                    } else {
                        old(self)@.possibilities[k]
                    }),
                !old(self)@.record_history ==> self@.solve_history == old(self)@.solve_history,
                old(self)@.solve_instructions.len() == 0 ==> self@.solve_instructions.len() == 0,
            decreases last + 1 - i,
        {
            if i % 2 == 0 {
                self.rollback_round(i as u8);
            }
            i += 1;
        }
        proof {
            assert forall|p: int| 0 <= p < 81 implies rolled_before(
                old(self)@.solution_round[p],
                i as int,
            ) == rolled(old(self)@.solution_round[p], old(self)@.last_solve_round) by {}
            assert forall|k: int| 0 <= k < 729 implies rolled_before(
                old(self)@.possibilities[k],
                i as int,
            ) == rolled(old(self)@.possibilities[k], old(self)@.last_solve_round) by {}
        }
    }
}

/// The board after every even round from `from` up to `to` was rolled back,
/// in turn.
pub open spec fn unwound(b: Board, from: int, to: int) -> Board
    decreases to + 1 - from,
{
    if from > to {
        b
    } else if from % 2 == 0 {
        unwound(b.rolled_back(from as u8), from + 1, to)
    } else {
        unwound(b, from + 1, to)
    }
}

/// A stamp is that of a round of logic before round `next`: an even round
/// from 2 on.
pub open spec fn rolled_before(stamp: u8, next: int) -> bool {
    stamp % 2 == 0 && 2 <= stamp < next
}

/// A stamp is one that rolling back the rounds of logic removes: an even
/// round from 2 up to `last`.
pub open spec fn rolled(stamp: u8, last: u8) -> bool {
    rolled_before(stamp, last + 1)
}

/// A cell is cleared with itself.
pub proof fn lemma_clears_itself(symmetry: Symmetry, p: int)
    ensures
        cleared_with(symmetry, p, p),
{
    reveal(cleared_with);
}

/// Without a symmetry a cell is cleared with itself only.
pub proof fn lemma_clears_alone(p: int, q: int)
    ensures
        cleared_with(Symmetry::NONE, p, q) <==> q == p,
        cleared_with(Symmetry::RANDOM, p, q) <==> q == p,
{
    reveal(cleared_with);
}

/// A cell that is cleared with another has that other cleared with it, and
/// the cells cleared with either are cleared with both.
pub proof fn lemma_cleared_together(symmetry: Symmetry, p: int, x: int, y: int)
    requires
        cleared_with(symmetry, p, x),
        cleared_with(symmetry, x, y),
    ensures
        cleared_with(symmetry, x, p),
        cleared_with(symmetry, p, y),
{
    reveal(cleared_with);
}

/// Taking a given and its partners away keeps the givens symmetric.
pub proof fn lemma_without_symmetric(puzzle: Seq<u8>, symmetry: Symmetry, p: int)
    requires
        0 <= p < 81,
        symmetric(puzzle, symmetry),
    ensures
        symmetric(without(puzzle, symmetry, p), symmetry),
{
    let less = without(puzzle, symmetry, p);
    assert forall|x: int, y: int|
        0 <= x < 81 && 0 <= y < 81 && #[trigger] cleared_with(symmetry, x, y) implies (less[x] != 0
        <==> less[y] != 0) by {
        lemma_clears_itself(symmetry, y);
        lemma_cleared_together(symmetry, x, y, y);
        if cleared_with(symmetry, p, x) {
            lemma_cleared_together(symmetry, p, x, y);
        }
        if cleared_with(symmetry, p, y) {
            lemma_cleared_together(symmetry, p, y, x);
        }
    }
}

impl Board {
    /// The board holds its givens and nothing else, and its logs are empty.
    pub open spec fn holds_givens_only(self) -> bool {
        &&& self.same_cells(self.with_givens(self.puzzle))
        &&& self.solve_history.len() == 0
        &&& self.solve_instructions.len() == 0
    }

    /// This board holds a puzzle generated under a symmetry, on a board that
    /// was `from`: the settings are as they were; the board holds the givens
    /// only; the puzzle is consistent and has exactly one solution; no given
    /// can be taken away, together with those cleared with it, without the
    /// puzzle getting a second solution; and the givens keep the symmetry.
    pub open spec fn generated(self, from: Board, symmetry: Symmetry) -> bool {
        &&& self.wf()
        &&& self.record_history == from.record_history
        &&& self.log_history == from.log_history
        &&& self.print_style == from.print_style
        &&& self.holds_givens_only()
        &&& consistent(self.puzzle)
        &&& solutions(self.puzzle).len() == 1
        &&& forall|p: int|
            0 <= p < 81 && self.puzzle[p] != 0 ==> #[trigger] needed(self.puzzle, symmetry, p)
        &&& symmetric(self.puzzle, symmetry)
        &&& symmetry == Symmetry::NONE ==> zeros_below(self.puzzle, 81) >= 1
    }
}

/// A complete grid is not a puzzle in which every given is needed: any one
/// of its givens can be taken away without a second solution coming up.
pub proof fn lemma_complete_grid_has_spare(puzzle: Seq<u8>, p: int)
    requires
        valid_grid(puzzle),
        0 <= p < 81,
    ensures
        !needed(puzzle, Symmetry::NONE, p),
{
    let less = without(puzzle, Symmetry::NONE, p);
    assert forall|q: int| cleared_with(Symmetry::NONE, p, q) == (q == p) by {
        reveal(cleared_with);
    }
    assert forall|g: Seq<u8>| solutions(less).contains(g) implies g == puzzle by {
        crate::grid::lemma_cell_in_house(House::Row, p);
        let unit = house_of(House::Row, p);
        crate::laws::lemma_house_holds_value(g, House::Row, unit, puzzle[p]);
        let index = choose|index: int|
            0 <= index < 9 && g[#[trigger] house_cell(House::Row, unit, index)] == puzzle[p];
        crate::grid::lemma_house_cells(House::Row, unit, index);
        assert forall|q: int| 0 <= q < 81 implies g[q] == puzzle[q] by {}
    }
    lemma_solutions_finite(less);
    lemma_len_subset(solutions(less), Set::<Seq<u8>>::empty().insert(puzzle));
}

/// A consistent puzzle without a blank is a valid grid.
pub proof fn lemma_complete_puzzle_valid(puzzle: Seq<u8>)
    requires
        puzzle.len() == 81,
        consistent(puzzle),
        forall|p: int| 0 <= p < 81 ==> 1 <= #[trigger] puzzle[p] <= 9,
    ensures
        valid_grid(puzzle),
{
    assert forall|p: int, q: int| 0 <= p < 81 && 0 <= q < 81 && peers(p, q) implies #[trigger] puzzle[p]
        != #[trigger] puzzle[q] by {
        if puzzle[p] == puzzle[q] {
            if p < q {
                assert(clashes(puzzle, q));
            } else {
                assert(clashes(puzzle, p));
            }
        }
    }
}

impl QQWing {
    /// Takes away the given at a cell, and with it the givens at its partners
    /// under the symmetry, if the puzzle has no more than one solution
    /// without them; else leaves the puzzle as it is. Either way the board is
    /// left holding the givens of the puzzle without them, and nothing else.
    #[verifier::rlimit(30)]
    pub fn remove_if_not_needed(&mut self, position: usize, symmetry: Symmetry) -> (removed: bool)
        requires
            old(self)@.ready(),
            !old(self)@.record_history,
            position < 81,
            old(self)@.puzzle[position as int] > 0,
        ensures
            removed == (solutions(
                standing_givens(without(old(self)@.puzzle, symmetry, position as int)),
            ).len() <= 1),
            final(self)@.puzzle == (if removed {
                without(old(self)@.puzzle, symmetry, position as int)
            } else {
                old(self)@.puzzle
            }),
            final(self)@.ready(),
            final(self)@ == (Board {
                puzzle: final(self)@.puzzle,
                ..(Board {
                    puzzle: without(old(self)@.puzzle, symmetry, position as int),
                    ..old(self)@
                }).with_givens(
                    standing_givens(without(old(self)@.puzzle, symmetry, position as int)),
                )
            }),
    {
        let mut positionsym1 = UNSET_VALUE;
        let mut positionsym2 = UNSET_VALUE;
        let mut positionsym3 = UNSET_VALUE;
        match symmetry {
            Symmetry::ROTATE90 => {
                positionsym1 = QQWing::row_column_to_cell(
                    ROW_COL_SEC_SIZE - 1 - QQWing::cell_to_row(position),
                    ROW_COL_SEC_SIZE - 1 - QQWing::cell_to_column(position),
                );
                positionsym2 = QQWing::row_column_to_cell(
                    ROW_COL_SEC_SIZE - 1 - QQWing::cell_to_column(position),
                    QQWing::cell_to_row(position),
                );
                positionsym3 = QQWing::row_column_to_cell(
                    QQWing::cell_to_column(position),
                    ROW_COL_SEC_SIZE - 1 - QQWing::cell_to_row(position),
                );
            },
            Symmetry::ROTATE180 => {
                positionsym1 = QQWing::row_column_to_cell(
                    ROW_COL_SEC_SIZE - 1 - QQWing::cell_to_row(position),
                    ROW_COL_SEC_SIZE - 1 - QQWing::cell_to_column(position),
                )
            },
            Symmetry::MIRROR => {
                positionsym1 = QQWing::row_column_to_cell(
                    QQWing::cell_to_row(position),
                    ROW_COL_SEC_SIZE - 1 - QQWing::cell_to_column(position),
                )
            },
            Symmetry::FLIP => {
                positionsym1 = QQWing::row_column_to_cell(
                    ROW_COL_SEC_SIZE - 1 - QQWing::cell_to_row(position),
                    QQWing::cell_to_column(position),
                )
            },
            _ => {},
        }
        let ghost before = old(self)@.puzzle;
        let ghost p = position as int;
        assert forall|q: int| 0 <= q < 81 implies (cleared_with(symmetry, p, q) <==> (q == p || q
            == positionsym1 || q == positionsym2 || q == positionsym3)) by {
            reveal(cleared_with);
        }
        // try backing out the value and
        // counting solutions to the puzzle
        let saved_value = self.puzzle[position];
        self.puzzle[position] = 0;
        let mut saved_sym1: u8 = 0;
        if positionsym1 != UNSET_VALUE {
            saved_sym1 = self.puzzle[positionsym1];
            self.puzzle[positionsym1] = 0;
        }
        let mut saved_sym2: u8 = 0;
        if positionsym2 != UNSET_VALUE {
            saved_sym2 = self.puzzle[positionsym2];
            self.puzzle[positionsym2] = 0;
        }
        let mut saved_sym3: u8 = 0;
        if positionsym3 != UNSET_VALUE {
            saved_sym3 = self.puzzle[positionsym3];
            self.puzzle[positionsym3] = 0;
        }
        let ghost less = self@.puzzle;
        assert(less =~= without(before, symmetry, p));
        self.reset();
        let ghost clean = self@;
        proof {
            lemma_free_cells(self@);
            assert(self@.grids() =~= solutions(standing_givens(less)));
            crate::counter::lemma_rollback_nothing(clean, 2);
        }
        if self.count_solutions_round(2, true) > 1 {
            // Put it back in, it is needed
            self.puzzle[position] = saved_value;
            if positionsym1 != UNSET_VALUE && saved_sym1 != 0 {
                self.puzzle[positionsym1] = saved_sym1;
            }
            if positionsym2 != UNSET_VALUE && saved_sym2 != 0 {
                self.puzzle[positionsym2] = saved_sym2;
            }
            if positionsym3 != UNSET_VALUE && saved_sym3 != 0 {
                self.puzzle[positionsym3] = saved_sym3;
            }
            false
        } else {
            true
        }
    }

    /// Generate a new sudoku puzzle, with no symmetry.
    pub fn generate_puzzle(&mut self) -> (res: bool)
        requires
            old(self)@.orders_complete(),
        ensures
            res,
            final(self)@.generated(old(self)@, Symmetry::NONE),
    {
        self.generate_puzzle_symmetry(Symmetry::NONE)
    }

    /// Generate a new sudoku puzzle whose givens are taken away under a
    /// symmetry. Where the symmetry asked for is random, one is picked.
    ///
    /// The board is filled by solving the empty puzzle at random. Without a
    /// symmetry only the guessed cells are kept as givens to start from.
    /// Then each given in turn, in random order, is taken away together with
    /// its partners, unless the puzzle would get a second solution.
    #[verifier::rlimit(40)]
    pub fn generate_puzzle_symmetry(&mut self, symmetry: Symmetry) -> (res: bool)
        requires
            old(self)@.orders_complete(),
        ensures
            res,
            symmetry != Symmetry::RANDOM ==> final(self)@.generated(old(self)@, symmetry),
            symmetry == Symmetry::RANDOM ==> exists|picked: Symmetry|
                picked != Symmetry::NONE && #[trigger] final(self)@.generated(old(self)@, picked),
    {
        let mut symmetry = symmetry;
        if symmetry == Symmetry::RANDOM {
            symmetry = QQWing::get_random_symmetry();
        }
        // Don't record history while generating.
        let rec_history = self.record_history;
        self.set_record_history(false);
        let l_history = self.log_history;
        self.set_log_history(false);

        self.clear_puzzle();

        // Start by getting the randomness in order so that
        // each puzzle will be different from the last.
        self.shuffle_random_arrays();

        // Now solve the puzzle the whole way. The solve
        // uses random algorithms, so we should have a
        // really randomly totally filled sudoku
        // Even when starting from an empty grid
        proof {
            let zeros = Seq::new(81, |i: int| 0u8);
            lemma_pattern_valid();
            crate::board::lemma_first_clash_none(zeros, 0);
            assert(solves(pattern_grid(), standing_givens(self@.puzzle)));
        }
        self.solve();
        let ghost filled = self@;
        let ghost grid = filled.solution;
        proof {
            lemma_solved_admits(filled);
        }

        if symmetry == Symmetry::NONE {
            // Rollback any square for which it is obvious that
            // the square doesn't contribute to a unique solution
            // (ie, squares that were filled by logic rather
            // than by guess)
            self.rollback_non_guesses();
        }
        // Record all marked squares as the puzzle, so that
        // counting solutions does not lose them.

        let ghost kept = self@;
        for i in 0..BOARD_SIZE
            invariant
                self@ == (Board { puzzle: self@.puzzle, ..kept }),
                forall|k: int| 0 <= k < i ==> #[trigger] self@.puzzle[k] == kept.solution[k],
        {
            self.puzzle[i] = self.solution[i];
        }
        proof {
            let puzzle = self@.puzzle;
            assert forall|g: Seq<u8>| solves(g, puzzle) implies g == grid by {
                if symmetry == Symmetry::NONE {
                    assert forall|p: int|
                        0 <= p < 81 && (#[trigger] filled.solution_round[p]) % 2 == 1 implies g[p]
                        == filled.solution[p] by {}
                    assert(filled.admits(g));
                } else {
                    assert forall|p: int| 0 <= p < 81 implies g[p] == grid[p] by {}
                }
            }
            lemma_only_solution(puzzle, grid);
            assert forall|p: int, q: int|
                0 <= p < 81 && 0 <= q < 81 && #[trigger] cleared_with(
                    symmetry,
                    p,
                    q,
                ) implies (puzzle[p] != 0 <==> puzzle[q] != 0) by {
                if symmetry == Symmetry::NONE {
                    lemma_clears_alone(p, q);
                } else {
                    assert(filled.solution[p] != 0 && filled.solution[q] != 0);
                }
            }
        }

        // Rerandomize everything so that we test squares
        // in a different order than they were added.
        self.shuffle_random_arrays();

        // Remove one value at a time and see if
        // the puzzle still has only one solution.
        // If it does, leave it out the point because
        // it is not needed.
        let ghost order = self@.random_board_array;
        for i in 0..BOARD_SIZE
            invariant
                self@.ready(),
                !self@.record_history,
                !self@.log_history,
                self@.print_style == old(self)@.print_style,
                self@.random_board_array == order,
                valid_grid(grid),
                within(self@.puzzle, grid),
                solutions(self@.puzzle) == Set::<Seq<u8>>::empty().insert(grid),
                symmetric(self@.puzzle, symmetry),
                forall|j: int|
                    0 <= j < i && self@.puzzle[order[j] as int] != 0 ==> needed(
                        self@.puzzle,
                        symmetry,
                        #[trigger] order[j] as int,
                    ),
        {
            // check all the positions, but in shuffled order
            let position = self.random_board_array[i] as usize;
            let ghost puzzle = self@.puzzle;
            if self.puzzle[position] > 0 {
                let ghost less = without(puzzle, symmetry, position as int);
                proof {
                    lemma_without_within(puzzle, symmetry, position as int, grid);
                    lemma_holds_grid(less, grid);
                    lemma_solvable_consistent(less, grid);
                    lemma_solutions_finite(less);
                    assert(solutions(less).contains(grid));
                    assert(solutions(less).len() >= 1) by {}
                }
                let removed = self.remove_if_not_needed(position, symmetry);
                proof {
                    if removed {
                        lemma_single_solution(less, grid);
                        lemma_without_symmetric(puzzle, symmetry, position as int);
                        assert forall|j: int|
                            0 <= j < i + 1 && less[order[j] as int] != 0 implies needed(
                            less,
                            symmetry,
                            #[trigger] order[j] as int,
                        ) by {
                            lemma_clears_itself(symmetry, position as int);
                            lemma_needed_within(less, puzzle, symmetry, order[j] as int);
                        }
                    }
                }
            }
        }

        // Clear all solution info, leaving just the puzzle.
        proof {
            lemma_holds_grid(self@.puzzle, grid);
            lemma_solvable_consistent(self@.puzzle, grid);
        }
        self.reset();

        // Restore recording history.
        self.set_record_history(rec_history);
        self.set_log_history(l_history);
        proof {
            let done = self@;
            let puzzle = done.puzzle;
            assert forall|p: int| 0 <= p < 81 && puzzle[p] != 0 implies #[trigger] needed(
                puzzle,
                symmetry,
                p,
            ) by {
                assert(occurs(order, p));
                let j = choose|j: int| 0 <= j < order.len() && #[trigger] order[j] == p;
            }
            if symmetry == Symmetry::NONE {
                crate::laws::lemma_zeros_bounds(puzzle, 81);
                if zeros_below(puzzle, 81) == 0 {
                    crate::laws::lemma_zeros_none(puzzle, 81);
                    assert forall|p: int| 0 <= p < 81 implies 1 <= #[trigger] puzzle[p] <= 9 by {}
                    lemma_complete_puzzle_valid(puzzle);
                    lemma_complete_grid_has_spare(puzzle, 0);
                }
            }
            assert(done.generated(old(self)@, symmetry));
        }
        true
    }
}

/// A valid grid solves every puzzle within it.
pub proof fn lemma_holds_grid(puzzle: Seq<u8>, grid: Seq<u8>)
    requires
        valid_grid(grid),
        within(puzzle, grid),
    ensures
        solves(grid, puzzle),
{
    assert forall|p: int| 0 <= p < 81 && puzzle[p] != 0 implies #[trigger] grid[p] == puzzle[p] by {}
}

/// A puzzle within a valid grid that nothing else solves has that grid for
/// its one solution.
pub proof fn lemma_only_solution(puzzle: Seq<u8>, grid: Seq<u8>)
    requires
        valid_grid(grid),
        within(puzzle, grid),
        forall|g: Seq<u8>| solves(g, puzzle) ==> g == grid,
    ensures
        solutions(puzzle) == Set::<Seq<u8>>::empty().insert(grid),
        solutions(puzzle).len() == 1,
{
    lemma_holds_grid(puzzle, grid);
    assert(solutions(puzzle) =~= Set::<Seq<u8>>::empty().insert(grid));
}

} // verus!
