//! The search: apply the techniques until none applies, then guess a value in
//! the free cell with the fewest possible values, recurse, and roll back
//! where a guess leads nowhere.

use vstd::prelude::*;
use crate::{Board, QQWing};
use crate::grid::{slot, House};
use crate::laws::{
    lemma_admits_marked,
    lemma_builds_on_counts,
    lemma_free_cells,
    lemma_impossible_admits_nothing,
    lemma_logged_then_marked,
    lemma_marked_extends,
    lemma_marked_free_cells,
    lemma_marked_wf,
    lemma_rollback_restores_cells,
    lemma_rolled_back_wf,
    lemma_solved_admits,
    lemma_zeros_bounds,
};
use crate::logitem::LogItem;
use crate::logtype::LogType;
use crate::pairs::{
    lemma_candidate_cell_free,
    lemma_hidden_pair_determined,
    lemma_naked_pair_determined,
};
use crate::reductions::lemma_reduction_determined;
use crate::singles::{lemma_hidden_single_determined, lemma_naked_single_determined};
use crate::trace::{
    lemma_derived_givens,
    lemma_derived_guess,
    lemma_derived_move,
    lemma_derived_same,
    lemma_move_logs_alike,
    lemma_moves_alike,
    round_after,
};
use crate::state::{
    given_items,
    occurs,
    solves,
    standing_givens,
    valid_grid,
    zeros_below,
};
use crate::{BOARD_SIZE, ROW_COL_SEC_SIZE};

verus! {

/// How many values are possible at `cell`, going by the possibility table.
pub open spec fn candidates_at(possibilities: Seq<u8>, cell: int) -> int {
    zeros_below(possibilities.subrange(9 * cell, 9 * cell + 9), 9)
}

/// The cell at place `i` of the order is the one to guess at: it is free, no
/// free cell has fewer possible values, and those before it in the order
/// have more.
pub open spec fn is_guess_place(
    solution: Seq<u8>,
    possibilities: Seq<u8>,
    order: Seq<u8>,
    i: int,
) -> bool {
    &&& 0 <= i < 81
    &&& solution[order[i] as int] == 0
    &&& forall|j: int|
        0 <= j < i && solution[#[trigger] order[j] as int] == 0 ==> candidates_at(
            possibilities,
            order[j] as int,
        ) > candidates_at(possibilities, order[i] as int)
    &&& forall|j: int|
        i <= j < 81 && solution[#[trigger] order[j] as int] == 0 ==> candidates_at(
            possibilities,
            order[j] as int,
        ) >= candidates_at(possibilities, order[i] as int)
}

/// The cell to guess at: the first in the order among the free cells with
/// the fewest possible values, or cell 0 where no cell is free.
pub open spec fn guess_cell_of(solution: Seq<u8>, possibilities: Seq<u8>, order: Seq<u8>) -> int {
    if exists|i: int| is_guess_place(solution, possibilities, order, i) {
        order[choose|i: int| is_guess_place(solution, possibilities, order, i)] as int
    } else {
        0
    }
}

/// How many of the first `n` values of the order are possible at `cell`.
pub open spec fn tried_below(possibilities: Seq<u8>, order: Seq<u8>, cell: int, n: int) -> int
    decreases n,
{
    if n <= 0 {
        0
    } else {
        tried_below(possibilities, order, cell, n - 1) + if possibilities[slot(
            order[n - 1] as int,
            cell,
        )] == 0 {
            1int
        } else {
            0int
        }
    }
}

impl Board {
    /// Some technique applies.
    pub open spec fn has_move(self) -> bool {
        ||| self.has_naked_single()
        ||| self.has_hidden_single(House::Section)
        ||| self.has_hidden_single(House::Row)
        ||| self.has_hidden_single(House::Column)
        ||| self.has_naked_pair()
        ||| self.has_reduction(House::Section, House::Row)
        ||| self.has_reduction(House::Section, House::Column)
        ||| self.has_reduction(House::Row, House::Section)
        ||| self.has_reduction(House::Column, House::Section)
        ||| self.has_hidden_pair(House::Row)
        ||| self.has_hidden_pair(House::Column)
        ||| self.has_hidden_pair(House::Section)
    }

    /// This board is `from` after the first technique that applies, in their
    /// fixed order, made its step in `round`.
    pub open spec fn after_move(self, from: Board, round: u8) -> bool {
        if from.has_naked_single() {
            self.after_naked_single(from, round)
        } else if from.has_hidden_single(House::Section) {
            self.after_hidden_single(from, House::Section, round)
        } else if from.has_hidden_single(House::Row) {
            self.after_hidden_single(from, House::Row, round)
        } else if from.has_hidden_single(House::Column) {
            self.after_hidden_single(from, House::Column, round)
        } else if from.has_naked_pair() {
            self.after_naked_pair(from, round)
        } else if from.has_reduction(House::Section, House::Row) {
            self.after_reduction(from, House::Section, House::Row, round)
        } else if from.has_reduction(House::Section, House::Column) {
            self.after_reduction(from, House::Section, House::Column, round)
        } else if from.has_reduction(House::Row, House::Section) {
            self.after_reduction(from, House::Row, House::Section, round)
        } else if from.has_reduction(House::Column, House::Section) {
            self.after_reduction(from, House::Column, House::Section, round)
        } else if from.has_hidden_pair(House::Row) {
            self.after_hidden_pair(from, House::Row, round)
        } else if from.has_hidden_pair(House::Column) {
            self.after_hidden_pair(from, House::Column, round)
        } else if from.has_hidden_pair(House::Section) {
            self.after_hidden_pair(from, House::Section, round)
        } else {
            self == from
        }
    }

    /// The cell at which the next guess is made.
    pub open spec fn guess_cell(self) -> int {
        guess_cell_of(self.solution, self.possibilities, self.random_board_array)
    }

    /// The value at place `i` of the order is the one that guess number
    /// `number` takes: it is possible at the guess cell, and `number` values
    /// before it in the order are possible there too.
    pub open spec fn is_guess(self, number: int, i: int) -> bool {
        &&& 0 <= i < 9
        &&& self.possible(self.random_possibility_array[i] as int, self.guess_cell())
        &&& tried_below(
            self.possibilities,
            self.random_possibility_array,
            self.guess_cell(),
            i,
        ) == number
    }

    /// The board after the value at place `i` of the order was guessed at the
    /// guess cell in `round`.
    pub open spec fn guessed(self, round: u8, i: int) -> Board {
        let value = (self.random_possibility_array[i] + 1) as u8;
        self.logged(
            LogItem {
                round,
                log_type: LogType::Guess,
                value: value as usize,
                position: self.guess_cell() as usize,
            },
        ).marked(self.guess_cell(), round, value)
    }

    /// The guessed cells decide the rest: every valid grid that agrees with
    /// the cells assigned in odd rounds is admitted.
    pub open spec fn guesses_decide(self) -> bool {
        forall|g: Seq<u8>|
            valid_grid(g) && self.holds_guesses(g) ==> #[trigger] self.admits(g)
    }

    /// The grid `g` agrees with every cell assigned in an odd round.
    pub open spec fn holds_guesses(self, g: Seq<u8>) -> bool {
        forall|p: int|
            0 <= p < 81 && (#[trigger] self.solution_round[p]) % 2 == 1 ==> g[p] == self.solution[p]
    }
}

/// Only one place of the order is the guess place.
pub proof fn lemma_guess_place_unique(
    solution: Seq<u8>,
    possibilities: Seq<u8>,
    order: Seq<u8>,
    i: int,
    j: int,
)
    requires
        is_guess_place(solution, possibilities, order, i),
        is_guess_place(solution, possibilities, order, j),
    ensures
        i == j,
{
}

/// The count of values tried grows along the order, by one at each possible
/// value, and never beyond the number of places.
pub proof fn lemma_tried_grows(possibilities: Seq<u8>, order: Seq<u8>, cell: int, i: int, n: int)
    requires
        0 <= i <= n,
    ensures
        0 <= tried_below(possibilities, order, cell, i) <= tried_below(
            possibilities,
            order,
            cell,
            n,
        ) <= n,
        i < n && possibilities[slot(order[i] as int, cell)] == 0 ==> tried_below(
            possibilities,
            order,
            cell,
            i,
        ) < tried_below(possibilities, order, cell, n),
    decreases n,
{
    if n > 0 {
        if i < n {
            lemma_tried_grows(possibilities, order, cell, i, n - 1);
        } else {
            lemma_tried_grows(possibilities, order, cell, 0, n - 1);
        }
    }
}

/// Every number below the count of values tried is the count at some place
/// that holds a possible value.
pub proof fn lemma_tried_reaches(
    possibilities: Seq<u8>,
    order: Seq<u8>,
    cell: int,
    n: int,
    number: int,
) -> (i: int)
    requires
        0 <= number < tried_below(possibilities, order, cell, n),
    ensures
        0 <= i < n,
        possibilities[slot(order[i] as int, cell)] == 0,
        tried_below(possibilities, order, cell, i) == number,
    decreases n,
{
    if n <= 0 {
        0
    } else if number < tried_below(possibilities, order, cell, n - 1) {
        lemma_tried_reaches(possibilities, order, cell, n - 1, number)
    } else {
        n - 1
    }
}

/// A step of the solver in an even round leaves the guesses deciding.
pub proof fn lemma_decide_step(from: Board, to: Board, round: u8)
    requires
        from.guesses_decide(),
        to.builds_on(from, round),
        round % 2 == 0,
        forall|g: Seq<u8>| #[trigger] to.admits(g) <==> from.admits(g),
    ensures
        to.guesses_decide(),
{
    assert forall|g: Seq<u8>| valid_grid(g) && to.holds_guesses(g) implies #[trigger] to.admits(
        g,
    ) by {
        assert forall|p: int|
            0 <= p < 81 && (#[trigger] from.solution_round[p]) % 2 == 1 implies g[p]
            == from.solution[p] by {
            assert(to.solution_round[p] == from.solution_round[p]);
        }
    }
}

/// A guess in an odd round leaves the guesses deciding.
pub proof fn lemma_decide_guess(from: Board, cell: int, round: u8, value: u8)
    requires
        from.shaped(),
        from.guesses_decide(),
        0 <= cell < 81,
        1 <= value <= 9,
        from.markable(cell, value),
        round % 2 == 1,
    ensures
        from.marked(cell, round, value).guesses_decide(),
{
    let to = from.marked(cell, round, value);
    assert forall|g: Seq<u8>| valid_grid(g) && to.holds_guesses(g) implies #[trigger] to.admits(
        g,
    ) by {
        assert forall|p: int|
            0 <= p < 81 && (#[trigger] from.solution_round[p]) % 2 == 1 implies g[p]
            == from.solution[p] by {
            assert(to.solution_round[p] == from.solution_round[p]);
        }
        assert(to.solution_round[cell] == round);
        lemma_admits_marked(from, cell, round, value, g);
    }
}

/// What a board admits, and whether its guesses decide, goes by its cells
/// alone.
pub proof fn lemma_same_cells(a: Board, b: Board)
    requires
        a.same_cells(b),
    ensures
        forall|g: Seq<u8>| #[trigger] a.admits(g) <==> b.admits(g),
        a.guesses_decide() <==> b.guesses_decide(),
        a.solved() <==> b.solved(),
        a.free_cells() == b.free_cells(),
{
    assert forall|g: Seq<u8>| #[trigger] a.admits(g) <==> b.admits(g) by {}
    assert forall|g: Seq<u8>| a.holds_guesses(g) <==> b.holds_guesses(g) by {}
    if a.guesses_decide() {
        assert forall|g: Seq<u8>| valid_grid(g) && b.holds_guesses(g) implies #[trigger] b.admits(
            g,
        ) by {
            assert(a.admits(g));
        }
    }
    if b.guesses_decide() {
        assert forall|g: Seq<u8>| valid_grid(g) && a.holds_guesses(g) implies #[trigger] a.admits(
            g,
        ) by {}
    }
}

impl Board {
    /// Every admitted grid holds at the guess cell a value that is tried at
    /// guess number `number` or later.
    pub open spec fn untried_from(self, number: int) -> bool {
        forall|g: Seq<u8>, k: int|
            #![trigger self.admits(g), self.random_possibility_array[k]]
            self.admits(g) && 0 <= k < 9 && self.random_possibility_array[k] == g[self.guess_cell()]
                - 1 ==> tried_below(
                self.possibilities,
                self.random_possibility_array,
                self.guess_cell(),
                k,
            ) >= number
    }
}

/// Every admitted grid holds at the guess cell a value tried at guess number
/// 0 or later.
pub proof fn lemma_untried_from_start(b: Board)
    ensures
        b.untried_from(0),
{
    assert forall|g: Seq<u8>, k: int|
        #![trigger b.admits(g), b.random_possibility_array[k]]
        0 <= k < 9 implies tried_below(
        b.possibilities,
        b.random_possibility_array,
        b.guess_cell(),
        k,
    ) >= 0 by {
        lemma_tried_grows(b.possibilities, b.random_possibility_array, b.guess_cell(), k, 9);
    }
}

/// A board with the cells and setup of one that builds on a third builds on
/// it too.
pub proof fn lemma_builds_on_same_cells(a: Board, b: Board, c: Board, round: u8)
    requires
        a.same_cells(b),
        a.same_setup(b),
        b.builds_on(c, round),
    ensures
        a.builds_on(c, round),
{
}

/// The board after a guess admits exactly the grids that were admitted and
/// hold the guessed value at the guess cell.
pub proof fn lemma_guess_admits(b: Board, round: u8, i: int, g: Seq<u8>)
    requires
        b.wf(),
        0 <= i < 9,
        0 <= b.guess_cell() < 81,
        b.possible(b.random_possibility_array[i] as int, b.guess_cell()),
    ensures
        b.guessed(round, i).admits(g) <==> (b.admits(g) && g[b.guess_cell()]
            == b.random_possibility_array[i] + 1),
{
    let cell = b.guess_cell();
    let value = (b.random_possibility_array[i] + 1) as u8;
    let item = LogItem {
        round,
        log_type: LogType::Guess,
        value: value as usize,
        position: cell as usize,
    };
    lemma_candidate_cell_free(b, cell, b.random_possibility_array[i] as int);
    lemma_logged_then_marked(b, cell, round, value, item);
    lemma_admits_marked(b, cell, round, value, g);
}

/// What holds once a guess has been made on a board whose stamps all lie
/// before the round of the guess.
pub proof fn lemma_guess_made(base: Board, now: Board, round: u8, number: int, i: int)
    requires
        base.wf(),
        round >= 1,
        base.stamps_at_most(round - 1),
        now.same_cells(base),
        now.same_setup(base),
        now.is_guess(number, i),
        0 <= now.guess_cell() < 81,
    ensures
        base.is_guess(number, i),
        base.guess_cell() == now.guess_cell(),
        base.solution[base.guess_cell()] == 0,
        0 <= number < 9,
        now.guessed(round, i).builds_on(base, round),
        now.guessed(round, i).stamps_at_most(round as int),
        now.guessed(round, i).free_cells() < base.free_cells(),
        base.guesses_decide() && round % 2 == 1 ==> now.guessed(round, i).guesses_decide(),
        now.solve_history.is_prefix_of(now.guessed(round, i).solve_history),
        forall|g: Seq<u8>| #[trigger]
            now.guessed(round, i).admits(g) <==> base.guessed(round, i).admits(g),
{
    let cell = base.guess_cell();
    let value = (base.random_possibility_array[i] + 1) as u8;
    let item = LogItem {
        round,
        log_type: LogType::Guess,
        value: value as usize,
        position: cell as usize,
    };
    let made = now.guessed(round, i);
    let plain = base.marked(cell, round, value);
    lemma_candidate_cell_free(base, cell, base.random_possibility_array[i] as int);
    lemma_tried_grows(base.possibilities, base.random_possibility_array, cell, i, 9);
    lemma_tried_grows(base.possibilities, base.random_possibility_array, cell, 0, i);
    lemma_logged_then_marked(now, cell, round, value, item);
    lemma_logged_then_marked(base, cell, round, value, item);
    lemma_marked_extends(base, cell, round, value);
    lemma_marked_free_cells(base, cell, round, value);
    lemma_marked_wf(base, cell, round, value);
    lemma_same_cells(made, plain);
    lemma_same_cells(base.guessed(round, i), plain);
    if base.guesses_decide() && round % 2 == 1 {
        lemma_decide_guess(base, cell, round, value);
    }
}

/// Rolling back the round after a guess and then the round of the guess
/// gives back the cells as they were before the guess.
pub proof fn lemma_guess_undone(base: Board, made: Board, failed: Board, round: u8, next: u8)
    requires
        base.wf(),
        round >= 1,
        next == round + 1,
        base.stamps_at_most(round - 1),
        made.wf(),
        made.builds_on(base, round),
        made.stamps_at_most(round as int),
        failed.wf(),
        failed.stamps_at_most(next as int),
        failed == made || failed.builds_on(made, next),
    ensures
        failed.rolled_back(next).rolled_back(round).wf(),
        failed.rolled_back(next).rolled_back(round).stamps_at_most(round - 1),
        failed.rolled_back(next).rolled_back(round).same_cells(base),
        failed.rolled_back(next).rolled_back(round).same_setup(base),
        failed.solve_history.is_prefix_of(
            failed.rolled_back(next).rolled_back(round).solve_history,
        ),
{
    let mid = failed.rolled_back(next);
    lemma_rollback_restores_cells(made, failed, next);
    lemma_rolled_back_wf(failed, next);
    lemma_builds_on_same_cells(mid, made, base, round);
    lemma_rollback_restores_cells(base, mid, round);
    lemma_rolled_back_wf(mid, round);
}

/// Where the guess of a number admits no grid, every admitted grid holds at
/// the guess cell a value that is tried later.
pub proof fn lemma_guess_refuted(b: Board, round: u8, number: int, i: int)
    requires
        b.wf(),
        !b.solved(),
        0 <= b.guess_cell() < 81,
        b.solution[b.guess_cell()] == 0,
        b.is_guess(number, i),
        b.untried_from(number),
        forall|g: Seq<u8>| !b.guessed(round, i).admits(g),
    ensures
        b.untried_from(number + 1),
{
    let cell = b.guess_cell();
    let order = b.random_possibility_array;
    let poss = b.possibilities;
    let value = (order[i] + 1) as u8;
    let item = LogItem {
        round,
        log_type: LogType::Guess,
        value: value as usize,
        position: cell as usize,
    };
    assert forall|g: Seq<u8>, k: int|
        #![trigger b.admits(g), b.random_possibility_array[k]]
        b.admits(g) && 0 <= k < 9 && order[k] == g[cell] - 1 implies tried_below(
        poss,
        order,
        cell,
        k,
    ) >= number + 1 by {
        if tried_below(poss, order, cell, k) == number {
            if k < i {
                lemma_tried_grows(poss, order, cell, k, i);
            }
            if i < k {
                lemma_tried_grows(poss, order, cell, i, k);
            }
            lemma_logged_then_marked(b, cell, round, value, item);
            lemma_admits_marked(b, cell, round, value, g);
            assert(b.marked(cell, round, value).logged(item).admits(g));
        }
    }
}

/// Where no guess is left to make, the board admits no grid.
pub proof fn lemma_guesses_exhausted(b: Board, number: int)
    requires
        b.wf(),
        0 <= b.guess_cell() < 81,
        b.solution[b.guess_cell()] == 0,
        0 <= number,
        b.untried_from(number),
        forall|i: int| !b.is_guess(number, i),
    ensures
        forall|g: Seq<u8>| !b.admits(g),
{
    let cell = b.guess_cell();
    let order = b.random_possibility_array;
    let poss = b.possibilities;
    assert forall|g: Seq<u8>| !b.admits(g) by {
        if b.admits(g) {
            let w = g[cell] - 1;
            assert(occurs(order, w));
            let k = choose|k: int| 0 <= k < order.len() && #[trigger] order[k] == w;
            lemma_tried_grows(poss, order, cell, k, 9);
            let i = lemma_tried_reaches(poss, order, cell, 9, number);
            assert(b.is_guess(number, i));
        }
    }
}

/// Work of a round on top of a board whose surviving log holds no later
/// round leaves a log that holds no later round.
pub proof fn lemma_extends_log(from: Board, to: Board, round: u8)
    requires
        from.log_at_most(round as int),
        to.extends(from, round),
    ensures
        to.log_at_most(round as int),
{
    assert forall|k: int| 0 <= k < to.solve_instructions.len() implies (
    #[trigger] to.solve_instructions[k]).round <= round by {
        if k < from.solve_instructions.len() {
            assert(to.solve_instructions[k] == from.solve_instructions[k]);
        }
    }
}

/// Rolling back the round after a guess and then the round of the guess
/// gives back the surviving log as it was before the guess.
pub proof fn lemma_guess_log_undone(
    now: Board,
    made: Board,
    failed: Board,
    round: u8,
    next: u8,
    i: int,
)
    requires
        round >= 1,
        next == round + 1,
        now.log_at_most(round - 1),
        made == now.guessed(round, i),
        failed == made || failed.extends(made, next),
    ensures
        made.log_at_most(round as int),
        failed.rolled_back(next).rolled_back(round).solve_instructions == now.solve_instructions,
{
    assert forall|k: int| 0 <= k < made.solve_instructions.len() implies (
    #[trigger] made.solve_instructions[k]).round <= round by {}
    crate::laws::lemma_trimmed_extension(failed.solve_instructions, made.solve_instructions, next);
    crate::laws::lemma_trimmed_clean(made.solve_instructions, next);
    crate::laws::lemma_trimmed_extension(made.solve_instructions, now.solve_instructions, round);
    crate::laws::lemma_trimmed_clean(now.solve_instructions, round);
}

/// A board with the cells, setup and surviving log of one that extends a
/// third, and with a history grown from it, extends the third too.
pub proof fn lemma_extends_same_cells(a: Board, b: Board, c: Board, round: u8)
    requires
        a.same_cells(b),
        a.same_setup(b),
        a.solve_instructions == b.solve_instructions,
        b.solve_history.is_prefix_of(a.solve_history),
        b.extends(c, round),
    ensures
        a.extends(c, round),
{
}

impl QQWing {
    /// Solves the board from where it stands, in `round` and the rounds
    /// after it: applies the techniques while any applies, then guesses,
    /// value by value, at the free cell with the fewest possible values, and
    /// goes on two rounds later. A guess that leads nowhere is rolled back
    /// with all that followed from it.
    ///
    /// Succeeds exactly if the board admits a complete grid, and then holds
    /// one. Where it fails, only work of its own round is left on the board.
    /// Where history is recorded and the surviving log was a derivation of
    /// the board, with `round` the round in force, it is a derivation
    /// afterwards too: logic in even rounds as long as a technique applies,
    /// a guess in the odd round after it only where none applies.
    #[verifier::rlimit(40)]
    pub fn solve_round(&mut self, round: u8) -> (res: bool)
        requires
            old(self)@.wf(),
            round >= 2,
            round % 2 == 0,
            old(self)@.stamps_at_most(round - 1),
            old(self)@.log_at_most(round - 1),
            round + 2 * old(self)@.free_cells() <= 164,
        ensures
            final(self)@.wf(),
            final(self)@.same_setup(old(self)@),
            res == (exists|g: Seq<u8>| old(self)@.admits(g)),
            res ==> final(self)@.solved() && old(self)@.admits(final(self)@.solution),
            res && old(self)@.guesses_decide() ==> final(self)@.guesses_decide(),
            !res ==> final(self)@.extends(old(self)@, round) && final(self)@.stamps_at_most(
                round as int,
            ),
            old(self)@.solve_history.is_prefix_of(final(self)@.solve_history),
            old(self)@.solve_instructions.is_prefix_of(final(self)@.solve_instructions),
            final(self)@.last_solve_round >= round,
            final(self)@.last_solve_round % 2 == 0,
            res ==> final(self)@.stamps_at_most(final(self)@.last_solve_round as int),
            res && final(self)@.last_solve_round == round ==> final(self)@.logged_alike_since(
                old(self)@,
            ),
            old(self)@.record_history && old(self)@.derived() && round == round_after(
                old(self)@.solve_instructions,
                old(self)@.solve_instructions.len() as int,
            ) ==> final(self)@.derived() && (res ==> final(self)@.last_solve_round == round_after(
                final(self)@.solve_instructions,
                final(self)@.solve_instructions.len() as int,
            )),
        decreases old(self)@.free_cells(),
    {
        self.last_solve_round = round;
        let ghost entry = self@;
        let ghost traced = old(self)@.record_history && old(self)@.derived() && round
            == round_after(
            old(self)@.solve_instructions,
            old(self)@.solve_instructions.len() as int,
        );
        proof {
            lemma_same_cells(entry, old(self)@);
            crate::laws::lemma_extends_self(entry, round);
            lemma_free_cells(entry);
            if traced {
                lemma_derived_same(entry, old(self)@);
            }
        }
        proof {
            assert(entry.solve_instructions.subrange(
                entry.solve_instructions.len() as int,
                entry.solve_instructions.len() as int,
            ) =~= Seq::<LogItem>::empty());
            assert(entry.solve_history + Seq::<LogItem>::empty() =~= entry.solve_history);
        }
        if self.is_solved() {
            proof {
                lemma_solved_admits(entry);
            }
            return true;
        }
        loop
            invariant
                round >= 2,
                round % 2 == 0,
                traced == (old(self)@.record_history && old(self)@.derived() && round
                    == round_after(
                    old(self)@.solve_instructions,
                    old(self)@.solve_instructions.len() as int,
                )),
                entry.same_cells(old(self)@),
                entry.same_setup(old(self)@),
                entry.solve_history == old(self)@.solve_history,
                entry.solve_instructions == old(self)@.solve_instructions,
                entry.free_cells() == old(self)@.free_cells(),
                entry.guesses_decide() <==> old(self)@.guesses_decide(),
                forall|g: Seq<u8>| #[trigger] entry.admits(g) <==> old(self)@.admits(g),
                round + 2 * entry.free_cells() <= 164,
                self@.wf(),
                self@.stamps_at_most(round as int),
                self@.extends(entry, round),
                !self@.solved(),
                forall|g: Seq<u8>| #[trigger] self@.admits(g) <==> entry.admits(g),
                entry.guesses_decide() ==> self@.guesses_decide(),
                self@.last_solve_round == round,
                self@.logged_alike_since(entry),
                traced ==> self@.derived() && round == round_after(
                    self@.solve_instructions,
                    self@.solve_instructions.len() as int,
                ),
            ensures
                !self@.has_move(),
            decreases self@.open_entries(),
        {
            let ghost before = self@;
            let moved = self.single_solve_move(round);
            proof {
                crate::laws::lemma_extends_twice(entry, before, self@, round);
                lemma_zeros_bounds(self@.possibilities, 729);
                assert forall|g: Seq<u8>| #[trigger] self@.admits(g) <==> entry.admits(g) by {
                    assert(self@.admits(g) <==> before.admits(g));
                }
                if entry.guesses_decide() {
                    lemma_decide_step(before, self@, round);
                }
                if traced {
                    lemma_derived_move(before, self@, round);
                }
                lemma_move_logs_alike(entry, before, self@, round);
            }
            if !moved {
                break;
            }
            if self.is_solved() {
                proof {
                    lemma_solved_admits(self@);
                }
                return true;
            }
            if self.is_impossible() {
                proof {
                    assert forall|g: Seq<u8>| !old(self)@.admits(g) by {
                        lemma_impossible_admits_nothing(self@, g);
                    }
                    lemma_extends_same_cells(self@, self@, old(self)@, round);
                }
                return false;
            }
        }
        let ghost base = self@;
        proof {
            lemma_builds_on_counts(entry, base, round);
            lemma_free_cells(base);
            lemma_untried_from_start(base);
            lemma_extends_log(old(self)@, base, round);
            assert forall|g: Seq<u8>| #[trigger] base.admits(g) <==> old(self)@.admits(g) by {}
        }
        let next_guess_round = round + 1;
        let next_round = round + 2;
        let mut guess_number: u32 = 0;
        loop
            invariant
                round >= 2,
                round % 2 == 0,
                next_guess_round == round + 1,
                next_round == round + 2,
                traced == (old(self)@.record_history && old(self)@.derived() && round
                    == round_after(
                    old(self)@.solve_instructions,
                    old(self)@.solve_instructions.len() as int,
                )),
                old(self)@.guesses_decide() ==> base.guesses_decide(),
                forall|g: Seq<u8>| #[trigger] base.admits(g) <==> old(self)@.admits(g),
                base.wf(),
                base.stamps_at_most(round as int),
                base.log_at_most(round as int),
                base.extends(old(self)@, round),
                traced ==> base.derived() && round == round_after(
                    base.solve_instructions,
                    base.solve_instructions.len() as int,
                ),
                !base.has_move(),
                self@.last_solve_round >= round,
                self@.last_solve_round % 2 == 0,
                !base.solved(),
                1 <= base.free_cells() <= old(self)@.free_cells(),
                round + 2 * old(self)@.free_cells() <= 164,
                self@.wf(),
                self@.same_cells(base),
                self@.same_setup(base),
                self@.solve_instructions == base.solve_instructions,
                base.solve_history.is_prefix_of(self@.solve_history),
                guess_number <= 9,
                base.untried_from(guess_number as int),
            ensures
                forall|i: int| !self@.is_guess(guess_number as int, i),
                0 <= self@.guess_cell() < 81,
                self@.solution[self@.guess_cell()] == 0,
            decreases 10 - guess_number,
        {
            let ghost now = self@;
            proof {
                lemma_same_cells(now, base);
            }
            let guessed = self.guess(next_guess_round, guess_number);
            if !guessed {
                break;
            }
            let ghost i = choose|i: int|
                now.is_guess(guess_number as int, i) && self@ == now.guessed(next_guess_round, i);
            let ghost made = self@;
            proof {
                lemma_guess_made(base, now, next_guess_round, guess_number as int, i);
                lemma_free_cells(made);
                lemma_guess_log_undone(now, made, made, next_guess_round, next_round, i);
                if traced {
                    lemma_derived_same(now, base);
                    lemma_moves_alike(base, now);
                    lemma_derived_guess(now, next_guess_round, guess_number as int, i);
                }
            }
            if self.is_impossible() || !self.solve_round(next_round) {
                let ghost failed = self@;
                proof {
                    assert forall|g: Seq<u8>| !base.guessed(next_guess_round, i).admits(g) by {
                        if made.impossible() {
                            lemma_impossible_admits_nothing(made, g);
                        }
                        assert(!made.admits(g));
                    }
                    lemma_guess_refuted(base, next_guess_round, guess_number as int, i);
                    lemma_guess_undone(base, made, failed, next_guess_round, next_round);
                    lemma_guess_log_undone(now, made, failed, next_guess_round, next_round, i);
                }
                self.rollback_round(next_round);
                self.rollback_round(next_guess_round);
            } else {
                proof {
                    let done = self@;
                    lemma_guess_admits(base, next_guess_round, i, done.solution);
                }
                return true;
            }
            guess_number += 1;
        }
        proof {
            lemma_same_cells(self@, base);
            assert forall|i: int| !base.is_guess(guess_number as int, i) by {
                assert(!self@.is_guess(guess_number as int, i));
            }
            lemma_guesses_exhausted(base, guess_number as int);
            assert forall|g: Seq<u8>| !old(self)@.admits(g) by {
                assert(base.admits(g) <==> old(self)@.admits(g));
            }
            lemma_extends_same_cells(self@, base, old(self)@, round);
            if traced {
                lemma_derived_same(self@, base);
            }
        }
        false
    }
}

impl QQWing {
    /// Makes the first step that any technique offers, trying the techniques
    /// in their fixed order: single, hidden single (section, row, column),
    /// naked pair, pointing pair (row, column), box and line (row, column),
    /// hidden pair (row, column, section).
    pub fn single_solve_move(&mut self, round: u8) -> (res: bool)
        requires
            old(self)@.wf(),
            round >= 1,
            old(self)@.stamps_at_most(round as int),
        ensures
            final(self)@.advances(old(self)@, round, res),
            res == old(self)@.has_move(),
            final(self)@.after_move(old(self)@, round),
    {
        if self.only_possibility_for_cell(round) {
            return true;
        }
        if self.only_value_in_section(round) {
            return true;
        }
        if self.only_value_in_row(round) {
            return true;
        }
        if self.only_value_in_column(round) {
            return true;
        }
        if self.handle_naked_pairs(round) {
            return true;
        }
        if self.pointing_row_reduction(round) {
            return true;
        }
        if self.pointing_column_reduction(round) {
            return true;
        }
        if self.row_box_reduction(round) {
            return true;
        }
        if self.col_box_reduction(round) {
            return true;
        }
        if self.hidden_pair_in_row(round) {
            return true;
        }
        if self.hidden_pair_in_column(round) {
            return true;
        }
        if self.hidden_pair_in_section(round) {
            return true;
        }
        false
    }

    /// The free cell with the fewest possible values; among several, the
    /// first in the random order of cells. Cell 0 where no cell is free.
    pub fn find_position_with_fewest_possibilities(&self) -> (position: usize)
        requires
            self@.wf(),
        ensures
            position == self@.guess_cell(),
            position < 81,
            !self@.solved() ==> self@.solution[position as int] == 0,
    {
        let mut min_possibilities: u32 = 10;
        let mut best_position: u8 = 0;
        let ghost best: int = 0;
        let ghost sol = self@.solution;
        let ghost poss = self@.possibilities;
        let ghost order = self@.random_board_array;
        for i in 0..BOARD_SIZE
            invariant
                self@.wf(),
                sol == self@.solution,
                poss == self@.possibilities,
                order == self@.random_board_array,
                min_possibilities <= 10,
                best_position < 81,
                min_possibilities == 10 ==> best_position == 0 && forall|j: int|
                    0 <= j < i ==> sol[#[trigger] order[j] as int] != 0,
                min_possibilities < 10 ==> {
                    &&& 0 <= best < i
                    &&& best_position == order[best]
                    &&& sol[best_position as int] == 0
                    &&& min_possibilities == candidates_at(poss, best_position as int)
                    &&& forall|j: int|
                        0 <= j < best && sol[#[trigger] order[j] as int] == 0 ==> candidates_at(
                            poss,
                            order[j] as int,
                        ) > min_possibilities
                    &&& forall|j: int|
                        best <= j < i && sol[#[trigger] order[j] as int] == 0 ==> candidates_at(
                            poss,
                            order[j] as int,
                        ) >= min_possibilities
                },
        {
            let position = self.random_board_array[i];
            if self.solution[position as usize] == 0 {
                let count = self.count_possibilities(position as usize);
                if count < min_possibilities {
                    min_possibilities = count;
                    best_position = position;
                    proof {
                        best = i as int;
                    }
                }
            }
        }
        proof {
            if min_possibilities < 10 {
                assert(is_guess_place(sol, poss, order, best));
                let c = choose|k: int| is_guess_place(sol, poss, order, k);
                lemma_guess_place_unique(sol, poss, order, best, c);
            } else {
                assert forall|k: int| !is_guess_place(sol, poss, order, k) by {}
                if !self@.solved() {
                    let p = choose|p: int| 0 <= p < 81 && !(#[trigger] sol[p] != 0);
                    assert(occurs(order, p));
                    let k = choose|k: int| 0 <= k < order.len() && #[trigger] order[k] == p;
                }
            }
        }
        best_position as usize
    }

    /// Makes guess number `guess_number` at the guess cell: marks there, in
    /// `round`, the value that comes at that number among its possible
    /// values, in the random order of values. Fails where the cell has no
    /// more than `guess_number` possible values.
    pub fn guess(&mut self, round: u8, guess_number: u32) -> (res: bool)
        requires
            old(self)@.wf(),
            round >= 1,
            old(self)@.stamps_at_most(round as int),
        ensures
            res == (exists|i: int| old(self)@.is_guess(guess_number as int, i)),
            res ==> exists|i: int|
                old(self)@.is_guess(guess_number as int, i) && final(self)@ == old(self)@.guessed(
                    round,
                    i,
                ),
            !res ==> final(self)@ == old(self)@,
            final(self)@.wf(),
            final(self)@.stamps_at_most(round as int),
            0 <= old(self)@.guess_cell() < 81,
            !old(self)@.solved() ==> old(self)@.solution[old(self)@.guess_cell()] == 0,
    {
        let mut local_guess_count: u32 = 0;
        let position = self.find_position_with_fewest_possibilities();
        let ghost b = self@;
        let ghost cell = position as int;
        let ghost poss = b.possibilities;
        let ghost order = b.random_possibility_array;
        for i in 0..ROW_COL_SEC_SIZE
            invariant
                self@ == b,
                b == old(self)@,
                b.wf(),
                round >= 1,
                b.stamps_at_most(round as int),
                position < 81,
                cell == position,
                cell == b.guess_cell(),
                poss == b.possibilities,
                order == b.random_possibility_array,
                local_guess_count == tried_below(poss, order, cell, i as int),
                local_guess_count <= i,
                forall|j: int| 0 <= j < i ==> !b.is_guess(guess_number as int, j),
        {
            let val_index = self.random_possibility_array[i];
            let val_pos = QQWing::get_possibility_index(val_index as usize, position);
            if self.possibilities[val_pos] == 0 {
                if local_guess_count == guess_number {
                    let value = val_index + 1;
                    let ghost item = LogItem {
                        round,
                        log_type: LogType::Guess,
                        value: value as usize,
                        position,
                    };
                    proof {
                        assert(b.is_guess(guess_number as int, i as int));
                        lemma_candidate_cell_free(b, cell, val_index as int);
                        lemma_marked_wf(b, cell, round, value);
                        lemma_logged_then_marked(b, cell, round, value, item);
                    }
                    if self.log_history || self.record_history {
                        self.add_history_item(
                            LogItem::new(round, LogType::Guess, value as usize, position),
                        );
                    }
                    let _ = self.mark(position, round, value);
                    return true;
                }
                local_guess_count += 1;
            }
        }
        false
    }
}

/// On a board that holds its givens and nothing else, the guesses decide:
/// the givens count as guessed, and nothing else is assigned.
pub proof fn lemma_givens_decide(b: Board)
    requires
        b.wf(),
        b.stamps_at_most(1),
        forall|g: Seq<u8>| #[trigger] b.admits(g) <==> solves(g, b.solution),
    ensures
        b.guesses_decide(),
{
    assert forall|g: Seq<u8>| valid_grid(g) && b.holds_guesses(g) implies #[trigger] b.admits(
        g,
    ) by {
        assert forall|p: int| 0 <= p < 81 && b.solution[p] != 0 implies #[trigger] g[p]
            == b.solution[p] by {}
    }
}

impl QQWing {
    /// Solve the puzzle: carry out the givens, put cells and values into a
    /// new random order, and search. Succeeds exactly if some complete grid
    /// is valid and holds the givens that stand, which are all givens where
    /// the puzzle is consistent; the solution is then such a grid.
    ///
    /// Where history is recorded, the surviving log is a derivation of the
    /// board: the givens, then steps of logic in round 2 for as long as a
    /// technique applies, then a guess in round 3 and logic in round 4, and
    /// so on. Where the search succeeds without a guess, the full history
    /// holds the same steps and no more.
    pub fn solve(&mut self) -> (res: bool)
        requires
            old(self)@.ready(),
        ensures
            final(self)@.wf(),
            final(self)@.puzzle == old(self)@.puzzle,
            final(self)@.record_history == old(self)@.record_history,
            final(self)@.log_history == old(self)@.log_history,
            final(self)@.print_style == old(self)@.print_style,
            res == (exists|g: Seq<u8>| solves(g, standing_givens(old(self)@.puzzle))),
            res ==> final(self)@.solved() && solves(
                final(self)@.solution,
                standing_givens(old(self)@.puzzle),
            ),
            res ==> final(self)@.guesses_decide(),
            final(self)@.record_history ==> final(self)@.derived(),
            final(self)@.last_solve_round >= 2,
            final(self)@.last_solve_round % 2 == 0,
            res ==> final(self)@.stamps_at_most(final(self)@.last_solve_round as int),
            res && final(self)@.last_solve_round == 2 ==> final(self)@.solve_history
                == final(self)@.solve_instructions,
            res && final(self)@.record_history ==> final(self)@.last_solve_round == round_after(
                final(self)@.solve_instructions,
                final(self)@.solve_instructions.len() as int,
            ),
            final(self)@.record_history ==> given_items(
                standing_givens(old(self)@.puzzle),
                81,
            ).is_prefix_of(final(self)@.solve_instructions) && given_items(
                standing_givens(old(self)@.puzzle),
                81,
            ).is_prefix_of(final(self)@.solve_history),
            !res ==> final(self)@.stamps_at_most(2),
    {
        self.reset();
        let ghost clean = self@;
        self.shuffle_random_arrays();
        let ghost start = self@;
        proof {
            lemma_free_cells(start);
            if start.record_history {
                let givens = standing_givens(old(self)@.puzzle);
                let taken = (Board {
                    random_board_array: start.random_board_array,
                    random_possibility_array: start.random_possibility_array,
                    ..old(self)@
                });
                lemma_derived_givens(taken, givens);
            }
            assert forall|g: Seq<u8>| #[trigger] start.admits(g) <==> solves(g, start.solution) by {
                assert(start.admits(g) <==> clean.admits(g));
            }
            lemma_givens_decide(start);
        }
        let res = self.solve_round(2);
        proof {
            if exists|g: Seq<u8>| solves(g, standing_givens(old(self)@.puzzle)) {
                let g = choose|g: Seq<u8>| solves(g, standing_givens(old(self)@.puzzle));
                assert(start.admits(g));
            }
        }
        res
    }
}

/// Determinism of propagation. What a step of the solver leaves behind is
/// decided by the board and the round: the first technique that applies
/// makes its first step. Where no technique applies the board is left as it
/// is, so that the step finds nothing however often it is repeated.
pub proof fn law_step_determined(b: Board, x: Board, y: Board, round: u8)
    requires
        b.shaped(),
        x.after_move(b, round),
        y.after_move(b, round),
    ensures
        x == y,
        !b.has_move() ==> x == b,
{
    if b.has_naked_single() {
        lemma_naked_single_determined(b, x, y, round);
    } else if b.has_hidden_single(House::Section) {
        lemma_hidden_single_determined(b, x, y, House::Section, round);
    } else if b.has_hidden_single(House::Row) {
        lemma_hidden_single_determined(b, x, y, House::Row, round);
    } else if b.has_hidden_single(House::Column) {
        lemma_hidden_single_determined(b, x, y, House::Column, round);
    } else if b.has_naked_pair() {
        lemma_naked_pair_determined(b, x, y, round);
    } else if b.has_reduction(House::Section, House::Row) {
        lemma_reduction_determined(b, x, y, House::Section, House::Row, round);
    } else if b.has_reduction(House::Section, House::Column) {
        lemma_reduction_determined(b, x, y, House::Section, House::Column, round);
    } else if b.has_reduction(House::Row, House::Section) {
        lemma_reduction_determined(b, x, y, House::Row, House::Section, round);
    } else if b.has_reduction(House::Column, House::Section) {
        lemma_reduction_determined(b, x, y, House::Column, House::Section, round);
    } else if b.has_hidden_pair(House::Row) {
        lemma_hidden_pair_determined(b, x, y, House::Row, round);
    } else if b.has_hidden_pair(House::Column) {
        lemma_hidden_pair_determined(b, x, y, House::Column, round);
    } else if b.has_hidden_pair(House::Section) {
        lemma_hidden_pair_determined(b, x, y, House::Section, round);
    }
}

} // verus!
