//! Counting the complete grids that a board admits: the same search as when
//! solving, but every branch is followed and every round rolled back, so
//! that the board is left as it was found.

use vstd::prelude::*;
use vstd::set_lib::{
    lemma_int_range,
    lemma_len_subset,
    lemma_map_size_bound,
    lemma_set_disjoint_lens,
    set_int_range,
};
use crate::{Board, QQWing};
use crate::laws::{
    lemma_builds_on_counts,
    lemma_free_cells,
    lemma_impossible_admits_nothing,
    lemma_rollback_of_extension,
    lemma_rollback_restores_cells,
    lemma_rolled_back_wf,
    lemma_solved_admits,
    lemma_zeros_bounds,
};
use crate::solver::{
    lemma_guess_admits,
    lemma_guess_made,
    lemma_tried_grows,
    lemma_tried_reaches,
    tried_below,
};
use crate::state::{occurs, solves, standing_givens};

verus! {

/// The sequences of `n` values from 1 to 9.
pub open spec fn rows(n: int) -> Set<Seq<u8>> {
    Set::new(|s: Seq<u8>| s.len() == n && forall|i: int| 0 <= i < n ==> 1 <= #[trigger] s[i] <= 9)
}

/// The sequences of `n + 1` values from 1 to 9 that end in a value up to
/// `top`.
pub open spec fn rows_ending(n: int, top: int) -> Set<Seq<u8>> {
    Set::new(|s: Seq<u8>| rows(n + 1).contains(s) && s[n] <= top)
}

/// The complete grids that solve a puzzle with the given givens.
pub open spec fn solutions(givens: Seq<u8>) -> Set<Seq<u8>> {
    Set::new(|g: Seq<u8>| solves(g, givens))
}

/// What a count says of the number of grids counted. An unbounded count is
/// that number. A bounded count is that number up to 2, and 2 for any
/// number above.
pub open spec fn counts(res: int, number: int, limit_to_two: bool) -> bool {
    if limit_to_two {
        res == (if number < 2 {
            number
        } else {
            2
        })
    } else {
        res == number
    }
}

impl Board {
    /// The complete grids that the board admits.
    pub open spec fn grids(self) -> Set<Seq<u8>> {
        Set::new(|g: Seq<u8>| self.admits(g))
    }

    /// The value that `g` holds at the guess cell is tried before guess
    /// number `n`.
    pub open spec fn tried_before(self, g: Seq<u8>, n: int) -> bool {
        exists|k: int|
            0 <= k < 9 && #[trigger] self.random_possibility_array[k] == g[self.guess_cell()] - 1
                && tried_below(
                self.possibilities,
                self.random_possibility_array,
                self.guess_cell(),
                k,
            ) < n
    }

    /// The admitted grids whose value at the guess cell is tried before guess
    /// number `n`.
    pub open spec fn tried_grids(self, n: int) -> Set<Seq<u8>> {
        Set::new(|g: Seq<u8>| self.admits(g) && self.tried_before(g, n))
    }
}

/// There are finitely many sequences of values that end in a value up to
/// `top`, if there are finitely many of the values before.
pub proof fn lemma_rows_ending_finite(n: int, top: int)
    requires
        0 <= n,
        0 <= top <= 9,
        rows(n).finite(),
    ensures
        rows_ending(n, top).finite(),
    decreases top,
{
    if top == 0 {
        assert(rows_ending(n, top) =~= Set::<Seq<u8>>::empty()) by {
            assert forall|s: Seq<u8>| !rows_ending(n, top).contains(s) by {}
        }
    } else {
        lemma_rows_ending_finite(n, top - 1);
        let f = |s: Seq<u8>| s.push(top as u8);
        let grown = rows(n).map(f);
        rows(n).lemma_map_finite(f);
        let both = rows_ending(n, top - 1).union(grown);
        assert(rows_ending(n, top).subset_of(both)) by {
            assert forall|s: Seq<u8>| rows_ending(n, top).contains(s) implies both.contains(s) by {
                if s[n] == top {
                    let t = s.drop_last();
                    assert(rows(n).contains(t)) by {
                        assert forall|i: int| 0 <= i < n implies 1 <= #[trigger] t[i] <= 9 by {}
                    }
                    assert(f(t) =~= s);
                } else {
                }
            }
        }
        vstd::set_lib::lemma_set_union_finite_iff(rows_ending(n, top - 1), grown);
        vstd::set_lib::lemma_set_subset_finite(both, rows_ending(n, top));
    }
}

/// There are finitely many sequences of `n` values from 1 to 9.
pub proof fn lemma_rows_finite(n: int)
    requires
        0 <= n,
    ensures
        rows(n).finite(),
    decreases n,
{
    if n == 0 {
        assert(rows(0) =~= Set::<Seq<u8>>::empty().insert(Seq::<u8>::empty())) by {
            assert forall|s: Seq<u8>| rows(0).contains(s) implies s == Seq::<u8>::empty() by {}
        }
    } else {
        lemma_rows_finite(n - 1);
        lemma_rows_ending_finite(n - 1, 9);
        assert(rows(n) =~= rows_ending(n - 1, 9));
    }
}

/// A board admits finitely many grids.
pub proof fn lemma_grids_finite(b: Board)
    ensures
        b.grids().finite(),
{
    lemma_rows_finite(81);
    vstd::set_lib::lemma_set_subset_finite(rows(81), b.grids());
}

/// A puzzle has finitely many solutions.
pub proof fn lemma_solutions_finite(givens: Seq<u8>)
    ensures
        solutions(givens).finite(),
{
    lemma_rows_finite(81);
    vstd::set_lib::lemma_set_subset_finite(rows(81), solutions(givens));
}

/// Boards that admit the same grids admit as many.
pub proof fn lemma_same_grids(a: Board, b: Board)
    requires
        forall|g: Seq<u8>| #[trigger] a.admits(g) <==> b.admits(g),
    ensures
        a.grids() == b.grids(),
{
}

/// A well-formed solved board admits one grid.
pub proof fn lemma_solved_count(b: Board)
    requires
        b.wf(),
        b.solved(),
    ensures
        b.grids().len() == 1,
{
    lemma_solved_admits(b);
    assert(b.grids() =~= Set::<Seq<u8>>::empty().insert(b.solution));
}

/// An impossible board admits no grid.
pub proof fn lemma_impossible_count(b: Board)
    requires
        b.impossible(),
    ensures
        b.grids().len() == 0,
{
    assert forall|g: Seq<u8>| !b.grids().contains(g) by {
        lemma_impossible_admits_nothing(b, g);
    }
    assert(b.grids() =~= Set::<Seq<u8>>::empty());
}

/// An order in which every number below its length occurs holds no number
/// twice.
pub proof fn lemma_order_injective(order: Seq<u8>, i: int, j: int)
    requires
        forall|c: int| 0 <= c < order.len() ==> #[trigger] occurs(order, c),
        0 <= i < j < order.len(),
    ensures
        order[i] != order[j],
{
    if order[i] == order[j] {
        let n = order.len() as int;
        let dom = set_int_range(0, n).remove(j);
        let f = |k: int| order[k] as int;
        let img = dom.map(f);
        let all = set_int_range(0, n);
        lemma_int_range(0, n);
        lemma_map_size_bound(dom, img, f);
        assert(all.subset_of(img)) by {
            assert forall|c: int| all.contains(c) implies img.contains(c) by {
                assert(occurs(order, c));
                let k = choose|k: int| 0 <= k < order.len() && #[trigger] order[k] == c;
                if k == j {
                    assert(dom.contains(i) && f(i) == c);
                } else {
                    assert(dom.contains(k) && f(k) == c);
                }
            }
        }
        lemma_len_subset(all, img);
    }
}

/// No grid has its value at the guess cell tried before guess number 0.
pub proof fn lemma_tried_none(b: Board)
    ensures
        b.tried_grids(0).len() == 0,
        b.tried_grids(0).finite(),
{
    assert forall|g: Seq<u8>| !b.tried_grids(0).contains(g) by {
        if b.tried_before(g, 0) {
            let k = choose|k: int|
                0 <= k < 9 && #[trigger] b.random_possibility_array[k] == g[b.guess_cell()] - 1
                    && tried_below(
                    b.possibilities,
                    b.random_possibility_array,
                    b.guess_cell(),
                    k,
                ) < 0;
            lemma_tried_grows(b.possibilities, b.random_possibility_array, b.guess_cell(), k, 9);
        }
    }
    assert(b.tried_grids(0) =~= Set::<Seq<u8>>::empty());
}

/// The grids tried up to a guess are those tried before it and, apart from
/// them, those that the guess admits.
pub proof fn lemma_tried_step(b: Board, round: u8, number: int, i: int)
    requires
        b.wf(),
        0 <= b.guess_cell() < 81,
        b.solution[b.guess_cell()] == 0,
        b.is_guess(number, i),
    ensures
        b.tried_grids(number + 1) == b.tried_grids(number) + b.guessed(round, i).grids(),
        b.tried_grids(number).disjoint(b.guessed(round, i).grids()),
        b.tried_grids(number + 1).subset_of(b.grids()),
{
    let cell = b.guess_cell();
    let order = b.random_possibility_array;
    let poss = b.possibilities;
    let made = b.guessed(round, i);
    assert forall|g: Seq<u8>| #[trigger] made.admits(g) <==> (b.admits(g) && g[cell] == order[i]
        + 1) by {
        lemma_guess_admits(b, round, i, g);
    }
    assert forall|g: Seq<u8>| b.tried_grids(number + 1).contains(g) <==> (b.tried_grids(
        number,
    ).contains(g) || made.grids().contains(g)) by {
        if b.tried_grids(number + 1).contains(g) && !b.tried_grids(number).contains(g) {
            let k = choose|k: int|
                0 <= k < 9 && #[trigger] b.random_possibility_array[k] == g[cell] - 1
                    && tried_below(poss, order, cell, k) < number + 1;
            assert(tried_below(poss, order, cell, k) == number);
            assert(b.possible(g[cell] - 1, cell));
            if k < i {
                lemma_tried_grows(poss, order, cell, k, i);
            }
            if i < k {
                lemma_tried_grows(poss, order, cell, i, k);
            }
            assert(made.admits(g));
        }
        if made.grids().contains(g) {
            assert(made.admits(g));
            assert(b.random_possibility_array[i] == g[cell] - 1);
            assert(b.tried_before(g, number + 1));
        }
        if b.tried_grids(number).contains(g) {
            let k = choose|k: int|
                0 <= k < 9 && #[trigger] b.random_possibility_array[k] == g[cell] - 1
                    && tried_below(poss, order, cell, k) < number;
            assert(b.tried_before(g, number + 1));
        }
    }
    assert(b.tried_grids(number + 1) =~= b.tried_grids(number) + made.grids());
    assert forall|g: Seq<u8>| !(b.tried_grids(number).contains(g) && made.grids().contains(
        g,
    )) by {
        if b.tried_grids(number).contains(g) && made.grids().contains(g) {
            assert(made.admits(g));
            let k = choose|k: int|
                0 <= k < 9 && #[trigger] b.random_possibility_array[k] == g[cell] - 1
                    && tried_below(poss, order, cell, k) < number;
            if k < i {
                lemma_order_injective(order, k, i);
            }
            if i < k {
                lemma_order_injective(order, i, k);
            }
        }
    }
}

/// Where no guess is left to make, every admitted grid has been tried.
pub proof fn lemma_tried_all(b: Board, number: int)
    requires
        b.wf(),
        0 <= b.guess_cell() < 81,
        b.solution[b.guess_cell()] == 0,
        0 <= number,
        forall|i: int| !b.is_guess(number, i),
    ensures
        b.tried_grids(number) == b.grids(),
{
    let cell = b.guess_cell();
    let order = b.random_possibility_array;
    let poss = b.possibilities;
    assert forall|g: Seq<u8>| b.admits(g) implies b.tried_before(g, number) by {
        let w = g[cell] - 1;
        assert(occurs(order, w));
        let k = choose|k: int| 0 <= k < order.len() && #[trigger] order[k] == w;
        lemma_tried_grows(poss, order, cell, k, 9);
        if number < tried_below(poss, order, cell, 9) {
            let i = lemma_tried_reaches(poss, order, cell, 9, number);
            assert(b.is_guess(number, i));
        }
    }
}

/// A round rolled back on a board without surviving log, whose history is
/// not recorded, changes nothing but the cells.
pub proof fn lemma_rollback_silent(b: Board, round: u8)
    requires
        !b.record_history,
        b.solve_instructions.len() == 0,
    ensures
        b.rolled_back(round).solve_history == b.solve_history,
        b.rolled_back(round).solve_instructions == b.solve_instructions,
        b.rolled_back(round).last_solve_round == b.last_solve_round,
{
}

/// On a board whose stamps all lie before a round, rolling that round back
/// changes nothing, if history is not recorded and the surviving log is
/// empty.
pub proof fn lemma_rollback_nothing(b: Board, round: u8)
    requires
        b.shaped(),
        round >= 1,
        b.stamps_at_most(round - 1),
        !b.record_history,
        b.solve_instructions.len() == 0,
    ensures
        b.rolled_back(round) == b,
{
    let r = b.rolled_back(round);
    assert(r.solution =~= b.solution);
    assert(r.solution_round =~= b.solution_round);
    assert(r.possibilities =~= b.possibilities);
}

/// Two boards that differ in their cells only, and have the same cells after
/// all, are one board.
pub proof fn lemma_same_board(a: Board, b: Board)
    requires
        a.same_cells(b),
        a.same_setup(b),
        a.solve_history == b.solve_history,
        a.solve_instructions == b.solve_instructions,
        a.last_solve_round == b.last_solve_round,
    ensures
        a == b,
{
}

impl QQWing {
    /// Counts the complete grids that the board admits, working in `round`
    /// and the rounds after it, and rolls `round` back. With `limit_to_two`
    /// it stops as soon as it has counted two.
    #[verifier::rlimit(40)]
    pub fn count_solutions_round(&mut self, round: u8, limit_to_two: bool) -> (res: u32)
        requires
            old(self)@.wf(),
            round >= 1,
            old(self)@.stamps_at_most(round as int),
            round + old(self)@.free_cells() <= 83,
            !old(self)@.record_history,
            old(self)@.solve_instructions.len() == 0,
            !limit_to_two ==> old(self)@.grids().len() <= u32::MAX,
        ensures
            final(self)@ == old(self)@.rolled_back(round),
            final(self)@.wf(),
            counts(res as int, old(self)@.grids().len() as int, limit_to_two),
        decreases old(self)@.free_cells(),
    {
        let ghost entry = self@;
        proof {
            lemma_free_cells(entry);
            lemma_grids_finite(entry);
            lemma_rolled_back_wf(entry, round);
            crate::laws::lemma_extends_self(entry, round);
        }
        if self.is_solved() {
            proof {
                lemma_solved_count(entry);
            }
            self.rollback_round(round);
            return 1;
        }
        loop
            invariant
                round >= 1,
                entry == old(self)@,
                0 <= entry.free_cells(),
                round + entry.free_cells() <= 83,
                !entry.record_history,
                entry.solve_instructions.len() == 0,
                !limit_to_two ==> entry.grids().len() <= u32::MAX,
                self@.wf(),
                self@.stamps_at_most(round as int),
                self@.extends(entry, round),
                self@.last_solve_round == entry.last_solve_round,
                self@.solve_history == entry.solve_history,
                self@.solve_instructions == entry.solve_instructions,
                !self@.solved(),
                self@.grids() == entry.grids(),
            ensures
                !self@.has_move(),
            decreases self@.open_entries(),
        {
            let ghost before = self@;
            let moved = self.single_solve_move(round);
            proof {
                crate::laws::lemma_extends_twice(entry, before, self@, round);
                lemma_zeros_bounds(self@.possibilities, 729);
                lemma_same_grids(self@, before);
                assert(self@.solve_history == before.solve_history) by {
                    lemma_silent_step(before, self@, round);
                }
            }
            if !moved {
                break;
            }
            if self.is_solved() {
                proof {
                    lemma_solved_count(self@);
                    lemma_round_undone(entry, self@, round);
                }
                self.rollback_round(round);
                return 1;
            }
            if self.is_impossible() {
                proof {
                    lemma_impossible_count(self@);
                    lemma_round_undone(entry, self@, round);
                }
                self.rollback_round(round);
                return 0;
            }
        }
        let ghost base = self@;
        proof {
            lemma_builds_on_counts(entry, base, round);
            lemma_free_cells(base);
            lemma_grids_finite(base);
            lemma_tried_none(base);
        }
        let mut solutions: u32 = 0;
        let next_round = round + 1;
        let mut guess_number: u32 = 0;
        loop
            invariant
                round >= 1,
                next_round == round + 1,
                entry == old(self)@,
                round + entry.free_cells() <= 83,
                !limit_to_two ==> entry.grids().len() <= u32::MAX,
                base.wf(),
                base.stamps_at_most(round as int),
                base.extends(entry, round),
                !base.record_history,
                base.solve_instructions.len() == 0,
                base.solve_instructions == entry.solve_instructions,
                base.solve_history == entry.solve_history,
                base.last_solve_round == entry.last_solve_round,
                !base.solved(),
                1 <= base.free_cells() <= entry.free_cells(),
                base.grids() == entry.grids(),
                base.grids().finite(),
                self@ == base,
                guess_number <= 9,
                base.tried_grids(guess_number as int).finite(),
                base.tried_grids(guess_number as int).subset_of(base.grids()),
                solutions == base.tried_grids(guess_number as int).len(),
                limit_to_two ==> solutions < 2,
            ensures
                forall|i: int| !self@.is_guess(guess_number as int, i),
                0 <= self@.guess_cell() < 81,
                self@.solution[self@.guess_cell()] == 0,
            decreases 10 - guess_number,
        {
            let guessed = self.guess(next_round, guess_number);
            if !guessed {
                break;
            }
            let ghost i = choose|i: int|
                base.is_guess(guess_number as int, i) && self@ == base.guessed(next_round, i);
            let ghost made = self@;
            proof {
                lemma_guess_made(base, base, next_round, guess_number as int, i);
                lemma_free_cells(made);
                lemma_grids_finite(made);
                lemma_tried_step(base, next_round, guess_number as int, i);
                lemma_set_disjoint_lens(base.tried_grids(guess_number as int), made.grids());
                lemma_len_subset(base.tried_grids(guess_number + 1), base.grids());
                lemma_len_subset(made.grids(), base.tried_grids(guess_number + 1));
                lemma_rollback_restores_cells(base, made, next_round);
                lemma_rollback_silent(made, next_round);
                lemma_same_board(made.rolled_back(next_round), base);
            }
            let found = self.count_solutions_round(next_round, limit_to_two);
            solutions += found;
            if limit_to_two && solutions >= 2 {
                proof {
                    lemma_round_undone(entry, base, round);
                }
                self.rollback_round(round);
                return 2;
            }
            guess_number += 1;
        }
        proof {
            lemma_tried_all(base, guess_number as int);
            lemma_round_undone(entry, base, round);
        }
        self.rollback_round(round);
        solutions
    }

    /// Counts the solutions of the puzzle, from the givens alone: whatever
    /// had been worked out is discarded, and nothing is recorded.
    pub fn count_solutions(&mut self, limit_to_two: bool) -> (res: u32)
        requires
            old(self)@.ready(),
            !limit_to_two ==> solutions(standing_givens(old(self)@.puzzle)).len() <= u32::MAX,
        ensures
            counts(
                res as int,
                solutions(standing_givens(old(self)@.puzzle)).len() as int,
                limit_to_two,
            ),
            final(self)@ == (Board {
                record_history: old(self)@.record_history,
                log_history: old(self)@.log_history,
                ..(Board { record_history: false, log_history: false, ..old(self)@ }).with_givens(
                    standing_givens(old(self)@.puzzle),
                )
            }),
            final(self)@.wf(),
    {
        // Don't record history while generating.
        let rec_history = self.record_history;
        self.set_record_history(false);
        let l_history = self.log_history;
        self.set_log_history(false);

        self.reset();
        let ghost clean = self@;
        proof {
            lemma_free_cells(clean);
            assert(clean.grids() =~= solutions(standing_givens(old(self)@.puzzle)));
            lemma_rollback_nothing(clean, 2);
        }
        let solution_count = self.count_solutions_round(2, limit_to_two);

        // Restore recording history.
        self.set_record_history(rec_history);
        self.set_log_history(l_history);

        solution_count
    }

    /// Count the number of solutions to the puzzle.
    pub fn count_total_solutions(&mut self) -> (res: u32)
        requires
            old(self)@.ready(),
            solutions(standing_givens(old(self)@.puzzle)).len() <= u32::MAX,
        ensures
            res == solutions(standing_givens(old(self)@.puzzle)).len(),
            final(self)@ == (Board {
                record_history: old(self)@.record_history,
                log_history: old(self)@.log_history,
                ..(Board { record_history: false, log_history: false, ..old(self)@ }).with_givens(
                    standing_givens(old(self)@.puzzle),
                )
            }),
            final(self)@.wf(),
    {
        self.count_solutions(false)
    }

    /// Count the number of solutions to the puzzle, but stop counting as
    /// soon as two are found: the count is 0, 1, or 2 for two and more. This
    /// runs much faster than `count_total_solutions` where there are many
    /// solutions.
    pub fn count_solutions_limited(&mut self) -> (res: u32)
        requires
            old(self)@.ready(),
        ensures
            counts(res as int, solutions(standing_givens(old(self)@.puzzle)).len() as int, true),
            final(self)@ == (Board {
                record_history: old(self)@.record_history,
                log_history: old(self)@.log_history,
                ..(Board { record_history: false, log_history: false, ..old(self)@ }).with_givens(
                    standing_givens(old(self)@.puzzle),
                )
            }),
            final(self)@.wf(),
    {
        self.count_solutions(true)
    }

    /// Whether the puzzle has no solution at all.
    pub fn has_no_solution(&mut self) -> (res: bool)
        requires
            old(self)@.ready(),
        ensures
            res == (solutions(standing_givens(old(self)@.puzzle)).len() == 0),
            final(self)@ == (Board {
                record_history: old(self)@.record_history,
                log_history: old(self)@.log_history,
                ..(Board { record_history: false, log_history: false, ..old(self)@ }).with_givens(
                    standing_givens(old(self)@.puzzle),
                )
            }),
            final(self)@.wf(),
    {
        self.count_solutions_limited() == 0
    }

    /// Whether the puzzle has a solution, and only a single solution.
    pub fn has_unique_solution(&mut self) -> (res: bool)
        requires
            old(self)@.ready(),
        ensures
            res == (solutions(standing_givens(old(self)@.puzzle)).len() == 1),
            final(self)@ == (Board {
                record_history: old(self)@.record_history,
                log_history: old(self)@.log_history,
                ..(Board { record_history: false, log_history: false, ..old(self)@ }).with_givens(
                    standing_givens(old(self)@.puzzle),
                )
            }),
            final(self)@.wf(),
    {
        self.count_solutions_limited() == 1
    }

    /// Whether the puzzle has more than one solution.
    pub fn has_multiple_solutions(&mut self) -> (res: bool)
        requires
            old(self)@.ready(),
        ensures
            res == (solutions(standing_givens(old(self)@.puzzle)).len() > 1),
            final(self)@ == (Board {
                record_history: old(self)@.record_history,
                log_history: old(self)@.log_history,
                ..(Board { record_history: false, log_history: false, ..old(self)@ }).with_givens(
                    standing_givens(old(self)@.puzzle),
                )
            }),
            final(self)@.wf(),
    {
        self.count_solutions_limited() > 1
    }
}

/// A step of the solver on a board whose history is not recorded leaves the
/// logs alone.
pub proof fn lemma_silent_step(before: Board, after: Board, round: u8)
    requires
        !before.record_history,
        after.after_move(before, round),
    ensures
        after.solve_history == before.solve_history,
        after.solve_instructions == before.solve_instructions,
{
}

/// Rolling back a round on a board that holds work of that round on top of
/// another gives what rolling it back on the other gives, if history is not
/// recorded and the surviving log is empty.
pub proof fn lemma_round_undone(entry: Board, worked: Board, round: u8)
    requires
        entry.shaped(),
        worked.shaped(),
        worked.extends(entry, round),
        !entry.record_history,
        entry.solve_instructions.len() == 0,
        worked.solve_instructions == entry.solve_instructions,
        worked.solve_history == entry.solve_history,
        worked.last_solve_round == entry.last_solve_round,
    ensures
        worked.rolled_back(round) == entry.rolled_back(round),
{
    lemma_rollback_of_extension(entry, worked, round);
    lemma_rollback_silent(entry, round);
    lemma_rollback_silent(worked, round);
    lemma_same_board(worked.rolled_back(round), entry.rolled_back(round));
}

/// Uniqueness consistency. A bounded count and an unbounded count of the
/// same grids agree on whether there is exactly one, and on whether there is
/// none.
pub proof fn law_counts_agree(limited: int, total: int, number: int)
    requires
        counts(limited, number, true),
        counts(total, number, false),
    ensures
        (limited == 1) == (total == 1),
        (limited == 0) == (total == 0),
        (limited > 1) == (total > 1),
{
}

} // verus!
