//! The surviving log as a derivation: replayed step by step on an empty
//! board, it leads to the cells that the board holds.

use vstd::prelude::*;
use crate::Board;
use crate::grid::{house_cell, House};
use crate::pairs::{hidden_pair_type, house_rank, naked_pair_type};
use crate::reductions::{reduction_position, reduction_type};
use crate::singles::hidden_single_type;
use crate::board::{givens_below, lemma_given_items_below, lemma_given_step};
use crate::laws::lemma_logged_then_marked;
use crate::solver::law_step_determined;
use crate::state::{given_item, given_items};
use crate::logitem::LogItem;
use crate::logtype::LogType;

verus! {

/// The log item marks a value chosen from outside the board: a given or a
/// guess.
pub open spec fn is_choice(item: LogItem) -> bool {
    item.log_type == LogType::Given || item.log_type == LogType::Guess
}

/// The board after a logged step was carried out on it once more: a given or
/// a guess is marked as the item names it, any other item stands for the
/// step that the solver makes on that board.
pub open spec fn replay_step(b: Board, item: LogItem) -> Board {
    if is_choice(item) {
        b.logged(item).marked(item.position as int, item.round, item.value as u8)
    } else {
        choose|t: Board| t.after_move(b, item.round)
    }
}

/// The board after the first `n` steps of a log were carried out on `start`.
pub open spec fn replay(start: Board, log: Seq<LogItem>, n: int) -> Board
    decreases n,
{
    if n <= 0 {
        start
    } else {
        replay_step(replay(start, log, n - 1), log[n - 1])
    }
}

/// The even round in which the solver works once the first `k` items of a log
/// are logged: round 2 after the givens, the round after that of a guess, and
/// the round of a step of logic.
pub open spec fn round_after(log: Seq<LogItem>, k: int) -> int {
    if k <= 0 || log[k - 1].log_type == LogType::Given {
        2
    } else if log[k - 1].log_type == LogType::Guess {
        log[k - 1].round + 1
    } else {
        log[k - 1].round as int
    }
}

/// Item `k` of a log is a step that the solver takes on the board `b`, which
/// the items before it have led to.
///
/// A given is of round 1 and follows nothing but givens. A step of logic is
/// made where a technique applies, in the even round in force, and is the
/// step that the first technique that applies makes. A guess is made only
/// where no technique applies, in the odd round that follows, at the guess
/// cell of the board and with a value possible there.
pub open spec fn step_in_order(b: Board, log: Seq<LogItem>, k: int) -> bool {
    let item = log[k];
    if item.log_type == LogType::Given {
        item.round == 1 && (k == 0 || log[k - 1].log_type == LogType::Given)
    } else if item.log_type == LogType::Guess {
        &&& !b.has_move()
        &&& item.round % 2 == 1
        &&& item.round == round_after(log, k) + 1
        &&& exists|i: int|
            0 <= i < 9 && b.possible(b.random_possibility_array[i] as int, b.guess_cell())
                && #[trigger] b.guessed(item.round, i) == replay_step(b, item)
    } else {
        &&& b.has_move()
        &&& item.round % 2 == 0
        &&& item.round == round_after(log, k)
        &&& replay_step(b, item).after_move(b, item.round)
        &&& replay_step(b, item).solve_instructions == b.solve_instructions.push(item)
    }
}

impl Board {
    /// Every item of the surviving log is a step that the solver takes on
    /// the board that the items before it lead to.
    pub open spec fn in_order(self) -> bool {
        forall|k: int|
            0 <= k < self.solve_instructions.len() ==> #[trigger] step_in_order(
                replay(self.blank(), self.solve_instructions, k),
                self.solve_instructions,
                k,
            )
    }

    /// The surviving log is a derivation of the board: its steps, carried
    /// out in order on the blank board, give the cells of this board, and
    /// each of them is a step that the solver takes where it stands.
    pub open spec fn derived(self) -> bool {
        self.retraced() && self.in_order()
    }

    /// The full history has grown from that of `from` by just the items by
    /// which the surviving log has grown: nothing was rolled back in between.
    pub open spec fn logged_alike_since(self, from: Board) -> bool {
        &&& from.solve_instructions.is_prefix_of(self.solve_instructions)
        &&& self.solve_history == from.solve_history + self.solve_instructions.subrange(
            from.solve_instructions.len() as int,
            self.solve_instructions.len() as int,
        )
    }

    /// The board without its cells and logs: nothing assigned, nothing ruled
    /// out, nothing logged.
    pub open spec fn blank(self) -> Board {
        Board {
            last_solve_round: 0,
            solution: Seq::new(81, |i: int| 0u8),
            solution_round: Seq::new(81, |i: int| 0u8),
            possibilities: Seq::new(729, |i: int| 0u8),
            solve_history: Seq::empty(),
            solve_instructions: Seq::empty(),
            ..self
        }
    }

    /// The surviving log derives the board: carried out in order on the
    /// blank board, its steps give the cells of this board, and log what the
    /// surviving log holds.
    pub open spec fn retraced(self) -> bool {
        let r = replay(self.blank(), self.solve_instructions, self.solve_instructions.len() as int);
        &&& r.same_cells(self)
        &&& r.same_setup(self)
        &&& r.solve_instructions == self.solve_instructions
    }

    /// This board with the cells of another, and with the logs grown as the
    /// logs of the other grew from those of `from`.
    pub open spec fn moved_like(self, from: Board, to: Board) -> Board {
        Board {
            solution: to.solution,
            solution_round: to.solution_round,
            possibilities: to.possibilities,
            solve_history: self.solve_history + to.solve_history.subrange(
                from.solve_history.len() as int,
                to.solve_history.len() as int,
            ),
            solve_instructions: self.solve_instructions + to.solve_instructions.subrange(
                from.solve_instructions.len() as int,
                to.solve_instructions.len() as int,
            ),
            ..self
        }
    }

    /// The two boards are alike in all that a step of the solver looks at:
    /// the cells, and whether history is recorded.
    pub open spec fn alike(self, other: Board) -> bool {
        &&& self.same_cells(other)
        &&& self.record_history == other.record_history
    }
}

/// Carrying out a log goes by its first `n` items only.
pub proof fn lemma_replay_prefix(start: Board, a: Seq<LogItem>, b: Seq<LogItem>, n: int)
    requires
        0 <= n <= a.len(),
        n <= b.len(),
        forall|k: int| 0 <= k < n ==> a[k] == b[k],
    ensures
        replay(start, a, n) == replay(start, b, n),
    decreases n,
{
    if n > 0 {
        lemma_replay_prefix(start, a, b, n - 1);
    }
}

/// The board that logging an item and growing like it give is the same.
pub proof fn lemma_moved_like_logged(r: Board, from: Board, item: LogItem)
    requires
        r.record_history == from.record_history,
    ensures
        r.moved_like(from, from.logged(item)).solve_history == r.logged(item).solve_history,
        r.moved_like(from, from.logged(item)).solve_instructions == r.logged(
            item,
        ).solve_instructions,
{
    let to = from.logged(item);
    if from.record_history {
        assert(to.solve_history.subrange(
            from.solve_history.len() as int,
            to.solve_history.len() as int,
        ) =~= Seq::<LogItem>::empty().push(item));
        assert(to.solve_instructions.subrange(
            from.solve_instructions.len() as int,
            to.solve_instructions.len() as int,
        ) =~= Seq::<LogItem>::empty().push(item));
        assert(r.solve_history + Seq::<LogItem>::empty().push(item) =~= r.solve_history.push(item));
        assert(r.solve_instructions + Seq::<LogItem>::empty().push(item)
            =~= r.solve_instructions.push(item));
    } else {
        assert(to.solve_history.subrange(
            from.solve_history.len() as int,
            to.solve_history.len() as int,
        ) =~= Seq::<LogItem>::empty());
        assert(to.solve_instructions.subrange(
            from.solve_instructions.len() as int,
            to.solve_instructions.len() as int,
        ) =~= Seq::<LogItem>::empty());
        assert(r.solve_history + Seq::<LogItem>::empty() =~= r.solve_history);
        assert(r.solve_instructions + Seq::<LogItem>::empty() =~= r.solve_instructions);
    }
}

/// A mark and its log item carry over to a board that is alike.
pub proof fn lemma_mark_carries_over(
    b: Board,
    r: Board,
    position: int,
    round: u8,
    value: u8,
    item: LogItem,
)
    requires
        r.alike(b),
    ensures
        r.moved_like(b, b.marked(position, round, value).logged(item)) == r.marked(
            position,
            round,
            value,
        ).logged(item),
{
    lemma_moved_like_logged(r, b, item);
}

/// The step that marks a naked single carries over to a board that is alike.
pub proof fn lemma_naked_single_carries_over(b: Board, x: Board, r: Board, round: u8)
    requires
        x.after_naked_single(b, round),
        r.alike(b),
    ensures
        r.moved_like(b, x).after_naked_single(r, round),
{
    let (cell, value) = choose|cell: int, value: u8|
        {
            &&& 0 <= cell < 81
            &&& 1 <= value <= 9
            &&& b.naked_single(cell)
            &&& forall|q: int| 0 <= q < cell ==> !b.naked_single(q)
            &&& b.possible(value - 1, cell)
            &&& x == #[trigger] b.marked(cell, round, value).logged(
                LogItem {
                    round,
                    log_type: LogType::Single,
                    value: value as usize,
                    position: cell as usize,
                },
            )
        };
    let item = LogItem {
        round,
        log_type: LogType::Single,
        value: value as usize,
        position: cell as usize,
    };
    lemma_mark_carries_over(b, r, cell, round, value, item);
    assert forall|q: int| 0 <= q < cell implies !r.naked_single(q) by {
        assert(!b.naked_single(q));
    }
}

/// Ruling out entries and logging it carries over to a board that is alike.
pub proof fn lemma_ruling_out_carries_over(
    b: Board,
    r: Board,
    ruled: Board,
    ruled_r: Board,
    item: LogItem,
)
    requires
        r.alike(b),
        ruled == (Board { possibilities: ruled.possibilities, ..b }),
        ruled_r == (Board { possibilities: ruled.possibilities, ..r }),
    ensures
        r.moved_like(b, ruled.logged(item)) == ruled_r.logged(item),
{
    lemma_moved_like_logged(r, b, item);
}

/// The step that marks a hidden single carries over to a board that is
/// alike.
pub proof fn lemma_hidden_single_carries_over(b: Board, x: Board, r: Board, kind: House, round: u8)
    requires
        x.after_hidden_single(b, kind, round),
        r.alike(b),
    ensures
        r.moved_like(b, x).after_hidden_single(r, kind, round),
{
    let (unit, value_index, index) = choose|unit: int, value_index: int, index: int|
        {
            &&& 0 <= unit < 9
            &&& 0 <= value_index < 9
            &&& 0 <= index < 9
            &&& b.hidden_single(kind, unit, value_index)
            &&& forall|u: int, v: int|
                0 <= u < 9 && 0 <= v < 9 && (u < unit || (u == unit && v < value_index))
                    ==> !#[trigger] b.hidden_single(kind, u, v)
            &&& b.possible(value_index, house_cell(kind, unit, index))
            &&& x == #[trigger] b.marked(
                house_cell(kind, unit, index),
                round,
                (value_index + 1) as u8,
            ).logged(
                LogItem {
                    round,
                    log_type: hidden_single_type(kind),
                    value: (value_index + 1) as usize,
                    position: house_cell(kind, unit, index) as usize,
                },
            )
        };
    let cell = house_cell(kind, unit, index);
    let value = (value_index + 1) as u8;
    let item = LogItem {
        round,
        log_type: hidden_single_type(kind),
        value: (value_index + 1) as usize,
        position: cell as usize,
    };
    lemma_mark_carries_over(b, r, cell, round, value, item);
    assert forall|u: int, v: int|
        0 <= u < 9 && 0 <= v < 9 && (u < unit || (u == unit && v < value_index))
        implies !#[trigger] r.hidden_single(kind, u, v) by {
        assert(!b.hidden_single(kind, u, v));
    }
}

/// The step that applies a naked pair carries over to a board that is alike.
pub proof fn lemma_naked_pair_carries_over(b: Board, x: Board, r: Board, round: u8)
    requires
        x.after_naked_pair(b, round),
        r.alike(b),
    ensures
        r.moved_like(b, x).after_naked_pair(r, round),
{
    let (kind, a, c) = choose|kind: House, a: int, c: int|
        {
            &&& b.naked_pair_works(kind, a, c)
            &&& forall|k: House, x: int, y: int|
                (x < a || (x == a && (y < c || (y == c && house_rank(k) < house_rank(kind)))))
                    ==> !#[trigger] b.naked_pair_works(k, x, y)
            &&& x == #[trigger] b.naked_pair_applied(round, kind, a, c).logged(
                LogItem { round, log_type: naked_pair_type(kind), value: 0, position: a as usize },
            )
        };
    let item = LogItem { round, log_type: naked_pair_type(kind), value: 0, position: a as usize };
    assert forall|k: House, p: int, q: int| #[trigger]
        r.naked_pair_works(k, p, q) == b.naked_pair_works(k, p, q) by {
        lemma_naked_pair_alike(b, r, k, p, q);
    }
    assert(r.naked_pair_applied(round, kind, a, c).possibilities =~= b.naked_pair_applied(
        round,
        kind,
        a,
        c,
    ).possibilities);
    lemma_ruling_out_carries_over(
        b,
        r,
        b.naked_pair_applied(round, kind, a, c),
        r.naked_pair_applied(round, kind, a, c),
        item,
    );
}

/// Whether a naked pair works goes by the cells alone.
pub proof fn lemma_naked_pair_alike(b: Board, r: Board, kind: House, a: int, c: int)
    requires
        r.same_cells(b),
    ensures
        r.naked_pair_works(kind, a, c) == b.naked_pair_works(kind, a, c),
{
    assert forall|i: int| r.naked_pair_entry(kind, a, c, i) == b.naked_pair_entry(kind, a, c, i) by {}
    assert(r.possibilities == b.possibilities);
    assert(r.same_candidates(a, c) == b.same_candidates(a, c)) by {
        if b.same_candidates(a, c) {
            assert forall|v: int| 0 <= v < 9 implies (r.possible(v, a) <==> #[trigger] r.possible(
                v,
                c,
            )) by {
                assert(b.possible(v, a) <==> b.possible(v, c));
            }
        }
        if r.same_candidates(a, c) {
            assert forall|v: int| 0 <= v < 9 implies (b.possible(v, a) <==> #[trigger] b.possible(
                v,
                c,
            )) by {
                assert(r.possible(v, a) <==> r.possible(v, c));
            }
        }
    }
    assert(r.naked_pair(a, c) == b.naked_pair(a, c));
    if b.naked_pair_works(kind, a, c) {
        let i = choose|i: int|
            0 <= i < 729 && b.possibilities[i] == 0 && #[trigger] b.naked_pair_entry(kind, a, c, i);
        assert(r.naked_pair_entry(kind, a, c, i));
    }
    if r.naked_pair_works(kind, a, c) {
        let i = choose|i: int|
            0 <= i < 729 && r.possibilities[i] == 0 && #[trigger] r.naked_pair_entry(kind, a, c, i);
        assert(b.naked_pair_entry(kind, a, c, i));
    }
}

/// The step that makes a reduction carries over to a board that is alike.
pub proof fn lemma_reduction_carries_over(
    b: Board,
    x: Board,
    r: Board,
    from: House,
    to: House,
    round: u8,
)
    requires
        x.after_reduction(b, from, to, round),
        r.alike(b),
    ensures
        r.moved_like(b, x).after_reduction(r, from, to, round),
{
    let (value_index, unit, target) = choose|value_index: int, unit: int, target: int|
        {
            &&& 0 <= value_index < 9
            &&& 0 <= unit < 9
            &&& 0 <= target < 9
            &&& b.reducible(from, unit, value_index, to, target)
            &&& forall|v: int, u: int|
                0 <= v < 9 && 0 <= u < 9 && (v < value_index || (v == value_index && u < unit))
                    ==> #[trigger] b.irreducible(from, u, v, to)
            &&& x == #[trigger] b.reduced(round, from, unit, value_index, to, target).logged(
                LogItem {
                    round,
                    log_type: reduction_type(from, to),
                    value: (value_index + 1) as usize,
                    position: reduction_position(from, unit, to, target) as usize,
                },
            )
        };
    let item = LogItem {
        round,
        log_type: reduction_type(from, to),
        value: (value_index + 1) as usize,
        position: reduction_position(from, unit, to, target) as usize,
    };
    assert forall|u: int, v: int, t: int| #[trigger]
        r.reducible(from, u, v, to, t) == b.reducible(from, u, v, to, t) by {}
    assert forall|v: int, u: int|
        0 <= v < 9 && 0 <= u < 9 && (v < value_index || (v == value_index && u < unit))
        implies #[trigger] r.irreducible(from, u, v, to) by {
        assert(b.irreducible(from, u, v, to));
    }
    lemma_ruling_out_carries_over(
        b,
        r,
        b.reduced(round, from, unit, value_index, to, target),
        r.reduced(round, from, unit, value_index, to, target),
        item,
    );
}

/// The step that applies a hidden pair carries over to a board that is
/// alike.
pub proof fn lemma_hidden_pair_carries_over(b: Board, x: Board, r: Board, kind: House, round: u8)
    requires
        x.after_hidden_pair(b, kind, round),
        r.alike(b),
    ensures
        r.moved_like(b, x).after_hidden_pair(r, kind, round),
{
    let (unit, v, w, i1, i2) = choose|unit: int, v: int, w: int, i1: int, i2: int|
        {
            &&& b.hidden_pair_works(kind, unit, v, w, i1, i2)
            &&& forall|u: int, x: int, y: int|
                0 <= u < 9 && 0 <= x < 9 && 0 <= y < 9 && (u < unit || (u == unit && (x < v || (x
                    == v && y < w)))) ==> #[trigger] b.no_hidden_pair(kind, u, x, y)
            &&& x == #[trigger] b.hidden_pair_applied(round, kind, unit, v, w, i1, i2).logged(
                LogItem {
                    round,
                    log_type: hidden_pair_type(kind),
                    value: (v + 1) as usize,
                    position: house_cell(kind, unit, i1) as usize,
                },
            )
        };
    let item = LogItem {
        round,
        log_type: hidden_pair_type(kind),
        value: (v + 1) as usize,
        position: house_cell(kind, unit, i1) as usize,
    };
    assert forall|u: int, p: int, q: int, j1: int, j2: int| #[trigger]
        r.hidden_pair_works(kind, u, p, q, j1, j2) == b.hidden_pair_works(
            kind,
            u,
            p,
            q,
            j1,
            j2,
        ) by {}
    assert forall|u: int, p: int, q: int|
        0 <= u < 9 && 0 <= p < 9 && 0 <= q < 9 && (u < unit || (u == unit && (p < v || (p == v && q
            < w)))) implies #[trigger] r.no_hidden_pair(kind, u, p, q) by {
        assert(b.no_hidden_pair(kind, u, p, q));
    }
    lemma_ruling_out_carries_over(
        b,
        r,
        b.hidden_pair_applied(round, kind, unit, v, w, i1, i2),
        r.hidden_pair_applied(round, kind, unit, v, w, i1, i2),
        item,
    );
}

/// Whether a technique applies goes by the cells alone.
pub proof fn lemma_moves_alike(b: Board, r: Board)
    requires
        r.same_cells(b),
    ensures
        r.has_naked_single() == b.has_naked_single(),
        forall|kind: House| #[trigger] r.has_hidden_single(kind) == b.has_hidden_single(kind),
        r.has_naked_pair() == b.has_naked_pair(),
        forall|from: House, to: House| #[trigger]
            r.has_reduction(from, to) == b.has_reduction(from, to),
        forall|kind: House| #[trigger] r.has_hidden_pair(kind) == b.has_hidden_pair(kind),
        r.has_move() == b.has_move(),
{
    assert(r.possibilities == b.possibilities);
    assert(r.solution == b.solution);
    assert forall|cell: int| r.naked_single(cell) == b.naked_single(cell) by {}
    assert forall|kind: House, u: int, v: int| #[trigger]
        r.hidden_single(kind, u, v) == b.hidden_single(kind, u, v) by {}
    assert forall|k: House, p: int, q: int| #[trigger]
        r.naked_pair_works(k, p, q) == b.naked_pair_works(k, p, q) by {
        lemma_naked_pair_alike(b, r, k, p, q);
    }
    assert forall|from: House, to: House, u: int, v: int| #[trigger]
        r.irreducible(from, u, v, to) == b.irreducible(from, u, v, to) by {
        assert forall|t: int|
            r.reducible(from, u, v, to, t) == b.reducible(from, u, v, to, t) by {}
        if b.irreducible(from, u, v, to) {
            assert forall|t: int| 0 <= t < 9 implies !#[trigger] r.reducible(from, u, v, to, t) by {
                assert(!b.reducible(from, u, v, to, t));
            }
        }
        if r.irreducible(from, u, v, to) {
            assert forall|t: int| 0 <= t < 9 implies !#[trigger] b.reducible(from, u, v, to, t) by {
                assert(!r.reducible(from, u, v, to, t));
            }
        }
    }
    assert forall|kind: House, u: int, p: int, q: int| #[trigger]
        r.no_hidden_pair(kind, u, p, q) == b.no_hidden_pair(kind, u, p, q) by {
        assert forall|j1: int, j2: int|
            r.hidden_pair_works(kind, u, p, q, j1, j2) == b.hidden_pair_works(
                kind,
                u,
                p,
                q,
                j1,
                j2,
            ) by {}
        if b.no_hidden_pair(kind, u, p, q) {
            assert forall|j1: int, j2: int| !#[trigger] r.hidden_pair_works(
                kind,
                u,
                p,
                q,
                j1,
                j2,
            ) by {
                assert(!b.hidden_pair_works(kind, u, p, q, j1, j2));
            }
        }
        if r.no_hidden_pair(kind, u, p, q) {
            assert forall|j1: int, j2: int| !#[trigger] b.hidden_pair_works(
                kind,
                u,
                p,
                q,
                j1,
                j2,
            ) by {
                assert(!r.hidden_pair_works(kind, u, p, q, j1, j2));
            }
        }
    }
    assert forall|kind: House| #[trigger]
        r.has_hidden_single(kind) == b.has_hidden_single(kind) by {
        if b.has_hidden_single(kind) {
            let (u, v) = choose|unit: int, value_index: int|
                0 <= unit < 9 && 0 <= value_index < 9 && #[trigger] b.hidden_single(
                    kind,
                    unit,
                    value_index,
                );
            assert(r.hidden_single(kind, u, v));
        }
        if r.has_hidden_single(kind) {
            let (u, v) = choose|unit: int, value_index: int|
                0 <= unit < 9 && 0 <= value_index < 9 && #[trigger] r.hidden_single(
                    kind,
                    unit,
                    value_index,
                );
            assert(b.hidden_single(kind, u, v));
        }
    }
    assert(r.has_naked_pair() == b.has_naked_pair()) by {
        if b.has_naked_pair() {
            let (k, p, q) = choose|kind: House, a: int, c: int| #[trigger]
                b.naked_pair_works(kind, a, c);
            assert(r.naked_pair_works(k, p, q));
        }
        if r.has_naked_pair() {
            let (k, p, q) = choose|kind: House, a: int, c: int| #[trigger]
                r.naked_pair_works(kind, a, c);
            assert(b.naked_pair_works(k, p, q));
        }
    }
    assert forall|from: House, to: House| #[trigger]
        r.has_reduction(from, to) == b.has_reduction(from, to) by {
        if b.has_reduction(from, to) {
            let (v, u) = choose|v: int, u: int|
                0 <= v < 9 && 0 <= u < 9 && !#[trigger] b.irreducible(from, u, v, to);
            assert(!r.irreducible(from, u, v, to));
        }
        if r.has_reduction(from, to) {
            let (v, u) = choose|v: int, u: int|
                0 <= v < 9 && 0 <= u < 9 && !#[trigger] r.irreducible(from, u, v, to);
            assert(!b.irreducible(from, u, v, to));
        }
    }
    assert forall|kind: House| #[trigger] r.has_hidden_pair(kind) == b.has_hidden_pair(kind) by {
        if b.has_hidden_pair(kind) {
            let (u, p, q) = choose|u: int, x: int, y: int|
                0 <= u < 9 && 0 <= x < 9 && 0 <= y < 9 && !#[trigger] b.no_hidden_pair(
                    kind,
                    u,
                    x,
                    y,
                );
            assert(!r.no_hidden_pair(kind, u, p, q));
        }
        if r.has_hidden_pair(kind) {
            let (u, p, q) = choose|u: int, x: int, y: int|
                0 <= u < 9 && 0 <= x < 9 && 0 <= y < 9 && !#[trigger] r.no_hidden_pair(
                    kind,
                    u,
                    x,
                    y,
                );
            assert(!b.no_hidden_pair(kind, u, p, q));
        }
    }
    assert(r.has_naked_single() == b.has_naked_single()) by {
        if b.has_naked_single() {
            let c = choose|cell: int| 0 <= cell < 81 && b.naked_single(cell);
            assert(r.naked_single(c));
        }
        if r.has_naked_single() {
            let c = choose|cell: int| 0 <= cell < 81 && r.naked_single(cell);
            assert(b.naked_single(c));
        }
    }
}

/// A step of the solver carries over to a board that is alike.
pub proof fn lemma_move_carries_over(b: Board, x: Board, r: Board, round: u8)
    requires
        x.after_move(b, round),
        b.has_move(),
        r.alike(b),
    ensures
        r.moved_like(b, x).after_move(r, round),
{
    lemma_moves_alike(b, r);
    if b.has_naked_single() {
        lemma_naked_single_carries_over(b, x, r, round);
    } else if b.has_hidden_single(House::Section) {
        lemma_hidden_single_carries_over(b, x, r, House::Section, round);
    } else if b.has_hidden_single(House::Row) {
        lemma_hidden_single_carries_over(b, x, r, House::Row, round);
    } else if b.has_hidden_single(House::Column) {
        lemma_hidden_single_carries_over(b, x, r, House::Column, round);
    } else if b.has_naked_pair() {
        lemma_naked_pair_carries_over(b, x, r, round);
    } else if b.has_reduction(House::Section, House::Row) {
        lemma_reduction_carries_over(b, x, r, House::Section, House::Row, round);
    } else if b.has_reduction(House::Section, House::Column) {
        lemma_reduction_carries_over(b, x, r, House::Section, House::Column, round);
    } else if b.has_reduction(House::Row, House::Section) {
        lemma_reduction_carries_over(b, x, r, House::Row, House::Section, round);
    } else if b.has_reduction(House::Column, House::Section) {
        lemma_reduction_carries_over(b, x, r, House::Column, House::Section, round);
    } else if b.has_hidden_pair(House::Row) {
        lemma_hidden_pair_carries_over(b, x, r, House::Row, round);
    } else if b.has_hidden_pair(House::Column) {
        lemma_hidden_pair_carries_over(b, x, r, House::Column, round);
    } else {
        lemma_hidden_pair_carries_over(b, x, r, House::Section, round);
    }
}

/// A step of the solver that makes progress, on a board that records its
/// history, logs one item: one of the round, and neither a given nor a
/// guess. Nothing but cells and logs changes.
pub proof fn lemma_move_logs(b: Board, x: Board, round: u8) -> (item: LogItem)
    requires
        x.after_move(b, round),
        b.has_move(),
        b.record_history,
    ensures
        x.solve_instructions == b.solve_instructions.push(item),
        x.solve_history == b.solve_history.push(item),
        item.round == round,
        !is_choice(item),
        x.blank() == b.blank(),
{
    let item = x.solve_instructions.last();
    assert(x.solve_instructions =~= b.solve_instructions.push(item));
    assert(x.solve_history =~= b.solve_history.push(item));
    item
}

/// A step of the solver on a board that does not record its history, or on
/// which no technique applies, leaves the logs as they are.
pub proof fn lemma_move_silent(b: Board, x: Board, round: u8)
    requires
        x.after_move(b, round),
        !b.has_move() || !b.record_history,
    ensures
        x.solve_instructions == b.solve_instructions,
        x.solve_history == b.solve_history,
{
}

/// A board that its surviving log derives is still derived by it after a
/// step of the solver.
pub proof fn lemma_retraced_move(b: Board, x: Board, round: u8)
    requires
        b.shaped(),
        b.record_history,
        b.retraced(),
        x.after_move(b, round),
    ensures
        x.retraced(),
{
    if b.has_move() {
        let item = lemma_move_logs(b, x, round);
        let n = b.solve_instructions.len() as int;
        let r = replay(b.blank(), b.solve_instructions, n);
        lemma_replay_prefix(x.blank(), x.solve_instructions, b.solve_instructions, n);
        let y = r.moved_like(b, x);
        lemma_move_carries_over(b, x, r, round);
        let t = replay_step(r, item);
        law_step_determined(r, t, y, round);
        assert(y.solve_instructions =~= x.solve_instructions);
    } else {
    }
}

/// A board that its surviving log derives is still derived by it after a
/// guess.
pub proof fn lemma_retraced_guess(b: Board, round: u8, i: int)
    requires
        b.shaped(),
        b.record_history,
        b.retraced(),
        0 <= i < 9,
        0 <= b.guess_cell() < 81,
        b.random_possibility_array[i] < 9,
    ensures
        b.guessed(round, i).retraced(),
{
    let x = b.guessed(round, i);
    let n = b.solve_instructions.len() as int;
    lemma_replay_prefix(x.blank(), x.solve_instructions, b.solve_instructions, n);
}

/// A board with the cells, the setup and the surviving log of one that its
/// log derives is derived by its log too.
pub proof fn lemma_retraced_same(a: Board, b: Board)
    requires
        b.retraced(),
        a.same_cells(b),
        a.same_setup(b),
        a.solve_instructions == b.solve_instructions,
    ensures
        a.retraced(),
{
}

/// The board that holds givens and nothing else, and records its history, is
/// derived by its log.
pub proof fn lemma_retraced_givens(b: Board, givens: Seq<u8>)
    requires
        givens.len() == 81,
        b.record_history,
    ensures
        b.with_givens(givens).retraced(),
{
    let taken = b.with_givens(givens);
    let blank = taken.blank();
    lemma_replay_givens(blank, givens, 81);
    assert(givens_below(givens, 81) =~= givens);
    lemma_given_items_below(givens, 81, 81);
}

/// Carrying out the log items of the first `n` givens on a blank board gives
/// the board that holds those givens.
pub proof fn lemma_replay_givens(blank: Board, givens: Seq<u8>, n: int)
    requires
        0 <= n <= 81,
        givens.len() == 81,
        blank.record_history,
        blank == blank.blank(),
    ensures
        replay(blank, given_items(givens, n), given_items(givens, n).len() as int)
            == blank.with_givens(givens_below(givens, n)),
    decreases n,
{
    let log = given_items(givens, n);
    let want = blank.with_givens(givens_below(givens, n));
    if n == 0 {
        assert(want.solution =~= blank.solution);
        assert(want.solution_round =~= blank.solution_round);
        assert forall|i: int| 0 <= i < 729 implies !crate::state::blocked(
            givens_below(givens, 0),
            i,
        ) by {}
        assert(want.possibilities =~= blank.possibilities);
        lemma_given_items_below(givens, 0, 81);
    } else {
        lemma_replay_givens(blank, givens, n - 1);
        let shorter = given_items(givens, n - 1);
        let before = blank.with_givens(givens_below(givens, n - 1));
        if givens[n - 1] != 0 {
            let item = given_item(givens[n - 1], n - 1);
            lemma_replay_prefix(blank, log, shorter, shorter.len() as int);
            lemma_logged_then_marked(before, n - 1, 1, givens[n - 1], item);
            lemma_given_step(blank, givens, n - 1);
        } else {
            assert(givens_below(givens, n) =~= givens_below(givens, n - 1));
        }
    }
}

/// The steps of a log that is the start of another are in order in both or in
/// neither.
pub proof fn lemma_steps_of_prefix(start: Board, a: Seq<LogItem>, b: Seq<LogItem>, k: int)
    requires
        0 <= k < a.len(),
        a.len() <= b.len(),
        forall|j: int| 0 <= j < a.len() ==> a[j] == b[j],
    ensures
        step_in_order(replay(start, a, k), a, k) == step_in_order(replay(start, b, k), b, k),
{
    lemma_replay_prefix(start, a, b, k);
    assert(a[k] == b[k]);
    if k > 0 {
        assert(a[k - 1] == b[k - 1]);
    }
}

/// A board that its surviving log derives in order is still so derived after
/// a step of the solver in the round in force.
pub proof fn lemma_derived_move(b: Board, x: Board, round: u8)
    requires
        b.shaped(),
        b.record_history,
        b.derived(),
        x.after_move(b, round),
        round % 2 == 0,
        round == round_after(b.solve_instructions, b.solve_instructions.len() as int),
    ensures
        x.derived(),
        round == round_after(x.solve_instructions, x.solve_instructions.len() as int),
{
    lemma_retraced_move(b, x, round);
    if b.has_move() {
        let item = lemma_move_logs(b, x, round);
        let n = b.solve_instructions.len() as int;
        let r = replay(b.blank(), b.solve_instructions, n);
        lemma_replay_prefix(x.blank(), x.solve_instructions, b.solve_instructions, n);
        let y = r.moved_like(b, x);
        lemma_move_carries_over(b, x, r, round);
        lemma_moves_alike(b, r);
        let t = replay_step(r, item);
        law_step_determined(r, t, y, round);
        assert(y.solve_instructions =~= r.solve_instructions.push(item));
        assert(x.solve_instructions[n] == item);
        assert(step_in_order(r, x.solve_instructions, n));
        assert forall|k: int| 0 <= k < x.solve_instructions.len() implies #[trigger] step_in_order(
            replay(x.blank(), x.solve_instructions, k),
            x.solve_instructions,
            k,
        ) by {
            if k < n {
                lemma_steps_of_prefix(b.blank(), b.solve_instructions, x.solve_instructions, k);
                assert(step_in_order(
                    replay(b.blank(), b.solve_instructions, k),
                    b.solve_instructions,
                    k,
                ));
            }
        }
    }
}

/// A board that its surviving log derives in order is still so derived after
/// a guess, made where no technique applies, in the round after the round in
/// force.
pub proof fn lemma_derived_guess(b: Board, round: u8, number: int, i: int)
    requires
        b.shaped(),
        b.record_history,
        b.derived(),
        !b.has_move(),
        b.is_guess(number, i),
        0 <= b.guess_cell() < 81,
        b.random_possibility_array[i] < 9,
        round % 2 == 1,
        round == round_after(b.solve_instructions, b.solve_instructions.len() as int) + 1,
    ensures
        b.guessed(round, i).derived(),
        round + 1 == round_after(
            b.guessed(round, i).solve_instructions,
            b.guessed(round, i).solve_instructions.len() as int,
        ),
{
    lemma_retraced_guess(b, round, i);
    let x = b.guessed(round, i);
    let n = b.solve_instructions.len() as int;
    let r = replay(b.blank(), b.solve_instructions, n);
    let value = (b.random_possibility_array[i] + 1) as u8;
    let item = LogItem {
        round,
        log_type: LogType::Guess,
        value: value as usize,
        position: b.guess_cell() as usize,
    };
    assert(x.solve_instructions =~= b.solve_instructions.push(item));
    assert(x.blank() == b.blank());
    lemma_replay_prefix(x.blank(), x.solve_instructions, b.solve_instructions, n);
    lemma_moves_alike(b, r);
    assert(r.guess_cell() == b.guess_cell());
    assert(r.random_possibility_array == b.random_possibility_array);
    assert(r.guessed(round, i) == replay_step(r, item));
    assert(step_in_order(r, x.solve_instructions, n));
    assert forall|k: int| 0 <= k < x.solve_instructions.len() implies #[trigger] step_in_order(
        replay(x.blank(), x.solve_instructions, k),
        x.solve_instructions,
        k,
    ) by {
        if k < n {
            lemma_steps_of_prefix(b.blank(), b.solve_instructions, x.solve_instructions, k);
            assert(step_in_order(
                replay(b.blank(), b.solve_instructions, k),
                b.solve_instructions,
                k,
            ));
        }
    }
}

/// A board with the cells, the setup and the surviving log of one that its
/// log derives in order is so derived too.
pub proof fn lemma_derived_same(a: Board, b: Board)
    requires
        b.derived(),
        a.same_cells(b),
        a.same_setup(b),
        a.solve_instructions == b.solve_instructions,
    ensures
        a.derived(),
{
    lemma_retraced_same(a, b);
    assert(a.blank() == b.blank());
    assert forall|k: int| 0 <= k < a.solve_instructions.len() implies #[trigger] step_in_order(
        replay(a.blank(), a.solve_instructions, k),
        a.solve_instructions,
        k,
    ) by {
        assert(step_in_order(
            replay(b.blank(), b.solve_instructions, k),
            b.solve_instructions,
            k,
        ));
    }
}

/// The log items of givens are givens of round 1.
pub proof fn lemma_given_items_are_givens(givens: Seq<u8>, n: int, k: int)
    requires
        0 <= k < given_items(givens, n).len(),
    ensures
        given_items(givens, n)[k].log_type == LogType::Given,
        given_items(givens, n)[k].round == 1,
    decreases n,
{
    if n > 0 {
        if k < given_items(givens, n - 1).len() {
            lemma_given_items_are_givens(givens, n - 1, k);
        }
    }
}

/// The board that holds givens and nothing else, and records its history, is
/// derived by its log in order; the round in force is round 2.
pub proof fn lemma_derived_givens(b: Board, givens: Seq<u8>)
    requires
        givens.len() == 81,
        b.record_history,
    ensures
        b.with_givens(givens).derived(),
        round_after(
            b.with_givens(givens).solve_instructions,
            b.with_givens(givens).solve_instructions.len() as int,
        ) == 2,
{
    lemma_retraced_givens(b, givens);
    let taken = b.with_givens(givens);
    let log = taken.solve_instructions;
    assert forall|k: int| 0 <= k < log.len() implies #[trigger] step_in_order(
        replay(taken.blank(), log, k),
        log,
        k,
    ) by {
        lemma_given_items_are_givens(givens, 81, k);
        if k > 0 {
            lemma_given_items_are_givens(givens, 81, k - 1);
        }
    }
    if log.len() > 0 {
        lemma_given_items_are_givens(givens, 81, log.len() - 1);
    }
}

/// A step of the solver adds to the full history just what it adds to the
/// surviving log.
pub proof fn lemma_move_logs_alike(from: Board, b: Board, x: Board, round: u8)
    requires
        b.logged_alike_since(from),
        x.after_move(b, round),
    ensures
        x.logged_alike_since(from),
{
    let n = b.solve_instructions.len() as int;
    let m = from.solve_instructions.len() as int;
    if b.has_move() && b.record_history {
        let item = lemma_move_logs(b, x, round);
        assert(x.solve_instructions.subrange(m, n + 1) =~= b.solve_instructions.subrange(
            m,
            n,
        ).push(item));
        assert(x.solve_history =~= from.solve_history + x.solve_instructions.subrange(m, n + 1));
    } else {
        lemma_move_silent(b, x, round);
        assert(x.solve_instructions.subrange(m, n) =~= b.solve_instructions.subrange(m, n));
    }
}

/// Determinism of propagation, from board to board. What a step of the
/// solver does goes by the cells alone: on two boards with the same cells,
/// both recording their history or neither, a technique applies to both or to
/// neither, and the step leaves both with the same cells.
pub proof fn law_step_goes_by_cells(a: Board, b: Board, x: Board, y: Board, round: u8)
    requires
        b.shaped(),
        a.alike(b),
        x.after_move(a, round),
        y.after_move(b, round),
    ensures
        a.has_move() == b.has_move(),
        x.same_cells(y),
{
    lemma_moves_alike(a, b);
    if a.has_move() {
        lemma_move_carries_over(a, x, b, round);
        law_step_determined(b, y, b.moved_like(a, x), round);
    }
}

} // verus!
