//! What holds of boards: marking and rolling back keep a board well formed,
//! a rollback undoes exactly the work of its round, and which complete grids
//! a board admits changes as the rules of the game demand.

use vstd::prelude::*;
use vstd::relations::injective_on;
use vstd::set_lib::{lemma_int_range, lemma_map_size, lemma_subset_equality, set_int_range};
use crate::Board;
use crate::grid::{
    house_cell,
    lemma_house_cells,
    lemma_same_house,
    peers,
    same_house,
    slot,
    House,
};
use crate::logitem::LogItem;
use crate::state::{
    consistent,
    covers,
    standing_givens,
    trimmed,
    valid_grid,
    zeros_below,
};

verus! {

/// In a valid grid every house holds every value.
pub proof fn lemma_house_holds_value(g: Seq<u8>, kind: House, unit: int, value: u8)
    requires
        valid_grid(g),
        0 <= unit < 9,
        1 <= value <= 9,
    ensures
        exists|index: int| 0 <= index < 9 && g[#[trigger] house_cell(kind, unit, index)] == value,
{
    let dom = set_int_range(0, 9);
    let f = |i: int| g[house_cell(kind, unit, i)] as int;
    let img = dom.map(f);
    let all = set_int_range(1, 10);
    lemma_int_range(0, 9);
    lemma_int_range(1, 10);
    assert(injective_on(f, dom)) by {
        assert forall|i: int, j: int|
            dom.contains(i) && dom.contains(j) && #[trigger] f(i) == #[trigger] f(j) implies i
            == j by {
            if i != j {
                lemma_house_cells(kind, unit, i);
                lemma_house_cells(kind, unit, j);
                let p = house_cell(kind, unit, i);
                let q = house_cell(kind, unit, j);
                lemma_same_house(p, q);
            }
        }
    }
    lemma_map_size(dom, img, f);
    assert(img.subset_of(all)) by {
        assert forall|x: int| img.contains(x) implies all.contains(x) by {
            let i = choose|i: int| dom.contains(i) && x == f(i);
            lemma_house_cells(kind, unit, i);
        }
    }
    lemma_subset_equality(img, all);
    assert(all.contains(value as int));
}

/// Marking a markable cell, in a round no earlier than any stamp on the
/// board, keeps the board well formed.
pub proof fn lemma_marked_wf(b: Board, position: int, round: u8, value: u8)
    requires
        b.wf(),
        0 <= position < 81,
        1 <= value <= 9,
        round >= 1,
        b.markable(position, value),
        b.stamps_at_most(round as int),
    ensures
        b.marked(position, round, value).wf(),
        b.marked(position, round, value).stamps_at_most(round as int),
{
    let m = b.marked(position, round, value);
    assert forall|q: int, i: int|
        0 <= q < 81 && 0 <= i < 729 && m.solution[q] != 0 && #[trigger] covers(
            q,
            m.solution[q],
            i,
        ) implies 0 < m.possibilities[i] <= m.solution_round[q] by {}
    assert forall|p: int, q: int|
        0 <= p < 81 && 0 <= q < 81 && peers(p, q) && #[trigger] m.solution[p] != 0
        implies m.solution[p] != #[trigger] m.solution[q] by {
        if p == position && m.solution[q] == value {
            assert(covers(q, b.solution[q], slot(value - 1, position)));
        }
        if q == position && m.solution[p] == value {
            assert(covers(p, b.solution[p], slot(value - 1, position)));
        }
    }
}

/// Rolling back the latest round keeps the board well formed, and leaves no
/// stamp of that round.
pub proof fn lemma_rolled_back_wf(b: Board, round: u8)
    requires
        b.wf(),
        round >= 1,
        b.stamps_at_most(round as int),
    ensures
        b.rolled_back(round).wf(),
        b.rolled_back(round).stamps_at_most(round - 1),
{
    let r = b.rolled_back(round);
    assert forall|q: int, i: int|
        0 <= q < 81 && 0 <= i < 729 && r.solution[q] != 0 && #[trigger] covers(
            q,
            r.solution[q],
            i,
        ) implies 0 < r.possibilities[i] <= r.solution_round[q] by {}
    assert forall|p: int, q: int|
        0 <= p < 81 && 0 <= q < 81 && peers(p, q) && #[trigger] r.solution[p] != 0
        implies r.solution[p] != #[trigger] r.solution[q] by {}
}

/// Every board extends itself.
pub proof fn lemma_extends_self(b: Board, round: u8)
    ensures
        b.extends(b, round),
{
}

/// Work of a round on cells that hold work of the same round is work of that
/// round.
pub proof fn lemma_builds_on_twice(a: Board, b: Board, c: Board, round: u8)
    requires
        b.builds_on(a, round),
        c.builds_on(b, round),
    ensures
        c.builds_on(a, round),
{
}

/// Work of a round on top of work of the same round is work of that round.
pub proof fn lemma_extends_twice(a: Board, b: Board, c: Board, round: u8)
    requires
        b.extends(a, round),
        c.extends(b, round),
    ensures
        c.extends(a, round),
{
    lemma_builds_on_twice(a, b, c, round);
    assert forall|k: int| a.solve_instructions.len() <= k < c.solve_instructions.len() implies (
    #[trigger] c.solve_instructions[k]).round == round by {
        if k < b.solve_instructions.len() {
            assert(b.solve_instructions[k].round == round);
        }
    }
}

/// Marking a free cell is work of the round that marks it.
pub proof fn lemma_marked_extends(b: Board, position: int, round: u8, value: u8)
    requires
        b.shaped(),
        0 <= position < 81,
        b.solution[position] == 0,
        b.solution_round[position] == 0,
    ensures
        b.marked(position, round, value).extends(b, round),
{
}

/// Logging an item of a round is work of that round.
pub proof fn lemma_logged_extends(b: Board, item: LogItem)
    ensures
        b.logged(item).extends(b, item.round),
{
}

/// A surviving log that has grown by items of a round only is, trimmed of that
/// round, what the log it grew from is when trimmed.
pub proof fn lemma_trimmed_extension(log: Seq<LogItem>, base: Seq<LogItem>, round: u8)
    requires
        base.is_prefix_of(log),
        forall|k: int| base.len() <= k < log.len() ==> (#[trigger] log[k]).round == round,
    ensures
        trimmed(log, round) == trimmed(base, round),
    decreases log.len(),
{
    if log.len() > base.len() {
        lemma_trimmed_extension(log.drop_last(), base, round);
    } else {
        assert(log =~= base);
    }
}

/// A log with no item of a round loses nothing when trimmed of that round.
pub proof fn lemma_trimmed_clean(log: Seq<LogItem>, round: u8)
    requires
        forall|k: int| 0 <= k < log.len() ==> (#[trigger] log[k]).round != round,
    ensures
        trimmed(log, round) == log,
{
}

/// Where a board carries no stamp of `round` or later, any work of that round
/// on its cells is undone by rolling the round back.
pub proof fn lemma_rollback_restores_cells(base: Board, worked: Board, round: u8)
    requires
        base.shaped(),
        worked.shaped(),
        round >= 1,
        base.stamps_at_most(round - 1),
        worked.builds_on(base, round),
    ensures
        worked.rolled_back(round).same_cells(base),
        worked.rolled_back(round).same_setup(base),
{
    let r = worked.rolled_back(round);
    assert(r.solution =~= base.solution);
    assert(r.solution_round =~= base.solution_round);
    assert(r.possibilities =~= base.possibilities);
}

/// Rollback exactness. Where a board carries no stamp and no log item of
/// `round` or later, any work of that round on top of it is undone by rolling
/// the round back: solution, rounds, possibility table and surviving log are
/// again what they were. Only the full history keeps growing.
pub proof fn law_rollback_restores(base: Board, worked: Board, round: u8)
    requires
        base.shaped(),
        worked.shaped(),
        round >= 1,
        base.stamps_at_most(round - 1),
        base.log_at_most(round - 1),
        worked.extends(base, round),
    ensures
        worked.rolled_back(round).same_cells(base),
        worked.rolled_back(round).same_setup(base),
        worked.rolled_back(round).solve_instructions == base.solve_instructions,
        base.solve_history.is_prefix_of(worked.rolled_back(round).solve_history),
{
    lemma_rollback_restores_cells(base, worked, round);
    lemma_trimmed_extension(worked.solve_instructions, base.solve_instructions, round);
    lemma_trimmed_clean(base.solve_instructions, round);
}

/// Rollback exactness for one mark: marking a free cell in a round later than
/// every stamp and log item, logging it, and rolling that round back gives
/// the board back as it was, but for the full history.
pub proof fn law_mark_then_rollback(b: Board, position: int, round: u8, value: u8, item: LogItem)
    requires
        b.shaped(),
        0 <= position < 81,
        round >= 1,
        item.round == round,
        b.solution[position] == 0,
        b.solution_round[position] == 0,
        b.stamps_at_most(round - 1),
        b.log_at_most(round - 1),
    ensures
        b.marked(position, round, value).logged(item).rolled_back(round) == (Board {
            solve_history: b.marked(position, round, value).logged(item).rolled_back(
                round,
            ).solve_history,
            ..b
        }),
{
    let m = b.marked(position, round, value);
    let w = m.logged(item);
    lemma_marked_extends(b, position, round, value);
    lemma_logged_extends(m, item);
    lemma_extends_twice(b, m, w, round);
    law_rollback_restores(b, w, round);
}

/// Rolling a round back undoes that round's work whatever lay below it: two
/// boards of which one extends the other by work of the round roll back to
/// the same cells and surviving log.
pub proof fn lemma_rollback_of_extension(base: Board, worked: Board, round: u8)
    requires
        base.shaped(),
        worked.shaped(),
        worked.builds_on(base, round),
        base.solve_instructions.is_prefix_of(worked.solve_instructions),
        forall|k: int|
            base.solve_instructions.len() <= k < worked.solve_instructions.len() ==> (
            #[trigger] worked.solve_instructions[k]).round == round,
    ensures
        worked.rolled_back(round).same_cells(base.rolled_back(round)),
        worked.rolled_back(round).same_setup(base),
        worked.rolled_back(round).solve_instructions == base.rolled_back(round).solve_instructions,
{
    let r = worked.rolled_back(round);
    let s = base.rolled_back(round);
    assert(r.solution =~= s.solution);
    assert(r.solution_round =~= s.solution_round);
    assert(r.possibilities =~= s.possibilities);
    lemma_trimmed_extension(worked.solve_instructions, base.solve_instructions, round);
}

/// A count of zeros lies between nothing and all.
pub proof fn lemma_zeros_bounds(s: Seq<u8>, n: int)
    requires
        0 <= n,
    ensures
        0 <= zeros_below(s, n) <= n,
    decreases n,
{
    if n > 0 {
        lemma_zeros_bounds(s, n - 1);
    }
}

/// Where no zero is counted there is none.
pub proof fn lemma_zeros_none(s: Seq<u8>, n: int)
    requires
        0 <= n,
        zeros_below(s, n) == 0,
    ensures
        forall|i: int| 0 <= i < n ==> #[trigger] s[i] != 0,
    decreases n,
{
    if n > 0 {
        lemma_zeros_bounds(s, n - 1);
        lemma_zeros_none(s, n - 1);
    }
}

/// One zero is counted at least once.
pub proof fn lemma_zeros_one(s: Seq<u8>, n: int, i: int)
    requires
        0 <= i < n,
        s[i] == 0,
    ensures
        zeros_below(s, n) >= 1,
    decreases n,
{
    lemma_zeros_bounds(s, n - 1);
    if i < n - 1 {
        lemma_zeros_one(s, n - 1, i);
    }
}

/// Two zeros are counted at least twice.
pub proof fn lemma_zeros_two(s: Seq<u8>, n: int, i: int, j: int)
    requires
        0 <= i < j < n,
        s[i] == 0,
        s[j] == 0,
    ensures
        zeros_below(s, n) >= 2,
    decreases n,
{
    if j < n - 1 {
        lemma_zeros_two(s, n - 1, i, j);
    } else {
        lemma_zeros_one(s, n - 1, i);
    }
}

/// Three zeros are counted at least three times.
pub proof fn lemma_zeros_three(s: Seq<u8>, n: int, i: int, j: int, k: int)
    requires
        0 <= i < j < k < n,
        s[i] == 0,
        s[j] == 0,
        s[k] == 0,
    ensures
        zeros_below(s, n) >= 3,
    decreases n,
{
    if k < n - 1 {
        lemma_zeros_three(s, n - 1, i, j, k);
    } else {
        lemma_zeros_two(s, n - 1, i, j);
    }
}

/// Where zeros only vanish, the count does not grow; and it shrinks where one
/// did vanish.
pub proof fn lemma_zeros_fewer(s: Seq<u8>, t: Seq<u8>, n: int)
    requires
        0 <= n,
        forall|i: int| 0 <= i < n && s[i] != 0 ==> #[trigger] t[i] != 0,
    ensures
        zeros_below(t, n) <= zeros_below(s, n),
        (exists|i: int| 0 <= i < n && s[i] == 0 && #[trigger] t[i] != 0) ==> zeros_below(t, n)
            < zeros_below(s, n),
    decreases n,
{
    if n > 0 {
        lemma_zeros_fewer(s, t, n - 1);
        if exists|i: int| 0 <= i < n && s[i] == 0 && #[trigger] t[i] != 0 {
            let i = choose|i: int| 0 <= i < n && s[i] == 0 && #[trigger] t[i] != 0;
            if i < n - 1 {
                assert(0 <= i < n - 1 && s[i] == 0 && t[i] != 0);
            }
        }
    }
}

/// Equal numbers give equal counts.
pub proof fn lemma_zeros_same(s: Seq<u8>, t: Seq<u8>, n: int)
    requires
        0 <= n,
        forall|i: int| 0 <= i < n ==> (s[i] == 0 <==> #[trigger] t[i] == 0),
    ensures
        zeros_below(t, n) == zeros_below(s, n),
    decreases n,
{
    if n > 0 {
        lemma_zeros_same(s, t, n - 1);
    }
}

/// A board that is not solved has a free cell; no board has more than 81.
pub proof fn lemma_free_cells(b: Board)
    ensures
        0 <= b.free_cells() <= 81,
        b.free_cells() == 0 <==> b.solved(),
{
    lemma_zeros_bounds(b.solution, 81);
    if b.free_cells() == 0 {
        lemma_zeros_none(b.solution, 81);
    }
    if b.solved() && b.free_cells() != 0 {
        let t = Seq::new(81, |i: int| 1u8);
        assert forall|i: int| 0 <= i < 81 implies (b.solution[i] == 0 <==> #[trigger] t[i] == 0) by {}
        lemma_zeros_same(b.solution, t, 81);
        lemma_zeros_ones(81);
    }
}

/// Among numbers that are all 1 no zero is counted.
pub proof fn lemma_zeros_ones(n: int)
    requires
        0 <= n <= 81,
    ensures
        zeros_below(Seq::new(81, |i: int| 1u8), n) == 0,
    decreases n,
{
    if n > 0 {
        lemma_zeros_ones(n - 1);
    }
}

/// Marking a free cell leaves one free cell fewer.
pub proof fn lemma_marked_free_cells(b: Board, position: int, round: u8, value: u8)
    requires
        b.shaped(),
        0 <= position < 81,
        b.solution[position] == 0,
        value != 0,
    ensures
        b.marked(position, round, value).free_cells() < b.free_cells(),
{
    let m = b.marked(position, round, value);
    assert(b.solution[position] == 0 && m.solution[position] != 0);
    lemma_zeros_fewer(b.solution, m.solution, 81);
}

/// Work on the cells of a board frees no cell and opens no entry.
pub proof fn lemma_builds_on_counts(base: Board, worked: Board, round: u8)
    requires
        worked.builds_on(base, round),
    ensures
        worked.free_cells() <= base.free_cells(),
        worked.open_entries() <= base.open_entries(),
{
    assert forall|p: int| 0 <= p < 81 && base.solution[p] != 0 implies #[trigger] worked.solution[p]
        != 0 by {
        assert(worked.solution_round[p] == base.solution_round[p]);
    }
    lemma_zeros_fewer(base.solution, worked.solution, 81);
    lemma_zeros_fewer(base.possibilities, worked.possibilities, 729);
}

/// Marking a cell admits exactly the grids that were admitted and hold the
/// marked value in that cell.
pub proof fn lemma_admits_marked(b: Board, position: int, round: u8, value: u8, g: Seq<u8>)
    requires
        b.shaped(),
        0 <= position < 81,
        1 <= value <= 9,
        b.markable(position, value),
    ensures
        b.marked(position, round, value).admits(g) <==> (b.admits(g) && g[position] == value),
{
    let m = b.marked(position, round, value);
    if b.admits(g) && g[position] == value {
        assert forall|p: int| 0 <= p < 81 implies if m.solution[p] != 0 {
            #[trigger] g[p] == m.solution[p]
        } else {
            m.possible(g[p] - 1, p)
        } by {
            if p != position {
                let i = slot(g[p] - 1, p);
                assert(i / 9 == p && i % 9 == g[p] - 1);
                if same_house(p, position) && g[p] == value {
                    assert(peers(p, position));
                }
            }
        }
    }
    if m.admits(g) {
        assert(g[position] == m.solution[position]);
        assert forall|p: int| 0 <= p < 81 implies if b.solution[p] != 0 {
            #[trigger] g[p] == b.solution[p]
        } else {
            b.possible(g[p] - 1, p)
        } by {
            if p != position {
                let i = slot(g[p] - 1, p);
                assert(0 <= i < 729);
            }
        }
    }
}

/// A board that rules out more and assigns the same admits no grid that the
/// other does not admit.
pub proof fn lemma_admits_fewer(b: Board, c: Board, g: Seq<u8>)
    requires
        c.solution == b.solution,
        forall|i: int| 0 <= i < 729 && #[trigger] c.possibilities[i] == 0 ==> b.possibilities[i] == 0,
        c.admits(g),
    ensures
        b.admits(g),
{
    assert forall|p: int| 0 <= p < 81 implies if b.solution[p] != 0 {
        #[trigger] g[p] == b.solution[p]
    } else {
        b.possible(g[p] - 1, p)
    } by {}
}

/// A well-formed solved board holds a valid grid, and admits that grid and no
/// other.
pub proof fn lemma_solved_admits(b: Board)
    requires
        b.wf(),
        b.solved(),
    ensures
        valid_grid(b.solution),
        b.admits(b.solution),
        forall|g: Seq<u8>| b.admits(g) ==> g == b.solution,
{
    assert forall|g: Seq<u8>| b.admits(g) implies g == b.solution by {
        assert forall|p: int| 0 <= p < 81 implies g[p] == b.solution[p] by {}
    }
}

/// A board on which some free cell has no possible value admits no grid.
pub proof fn lemma_impossible_admits_nothing(b: Board, g: Seq<u8>)
    requires
        b.impossible(),
    ensures
        !b.admits(g),
{
    let p = choose|p: int| 0 <= p < 81 && #[trigger] b.solution[p] == 0 && b.stuck_at(p);
    if b.admits(g) {
        assert(1 <= g[p] <= 9);
    }
}

/// Marking a cell whose value every admitted grid holds there, and logging
/// it, is a step of the solver that makes progress.
pub proof fn lemma_advance_by_mark(b: Board, position: int, round: u8, value: u8, item: LogItem)
    requires
        b.wf(),
        round >= 1,
        b.stamps_at_most(round as int),
        0 <= position < 81,
        1 <= value <= 9,
        b.markable(position, value),
        item.round == round,
        forall|g: Seq<u8>| b.admits(g) ==> g[position] == value,
    ensures
        b.marked(position, round, value).logged(item).advances(b, round, true),
{
    let m = b.marked(position, round, value);
    let c = m.logged(item);
    lemma_marked_wf(b, position, round, value);
    lemma_marked_extends(b, position, round, value);
    lemma_logged_extends(m, item);
    lemma_extends_twice(b, m, c, round);
    let e = slot(value - 1, position);
    assert(b.possibilities[e] == 0 && c.possibilities[e] != 0) by {}
    lemma_zeros_fewer(b.possibilities, c.possibilities, 729);
    assert forall|g: Seq<u8>| #[trigger] c.admits(g) <==> b.admits(g) by {
        lemma_admits_marked(b, position, round, value, g);
    }
}

/// Ruling out entries that no admitted grid uses, and logging it, is a step of
/// the solver; it makes progress where an entry was ruled out.
pub proof fn lemma_advance_by_ruling_out(b: Board, ruled: Board, round: u8, item: LogItem)
    requires
        b.wf(),
        round >= 1,
        b.stamps_at_most(round as int),
        item.round == round,
        ruled == (Board { possibilities: ruled.possibilities, ..b }),
        ruled.possibilities.len() == 729,
        forall|i: int|
            0 <= i < 729 ==> if b.possibilities[i] != 0 {
                #[trigger] ruled.possibilities[i] == b.possibilities[i]
            } else {
                ruled.possibilities[i] == 0 || ruled.possibilities[i] == round
            },
        exists|i: int| 0 <= i < 729 && b.possibilities[i] == 0 && #[trigger] ruled.possibilities[i] != 0,
        forall|g: Seq<u8>, p: int|
            b.admits(g) && 0 <= p < 81 && b.solution[p] == 0 ==> #[trigger] ruled.possible(
                g[p] - 1,
                p,
            ),
    ensures
        ruled.logged(item).advances(b, round, true),
{
    let c = ruled.logged(item);
    lemma_logged_extends(ruled, item);
    lemma_extends_twice(b, ruled, c, round);
    lemma_zeros_fewer(b.possibilities, c.possibilities, 729);
    assert forall|q: int, i: int|
        0 <= q < 81 && 0 <= i < 729 && c.solution[q] != 0 && #[trigger] covers(
            q,
            c.solution[q],
            i,
        ) implies 0 < c.possibilities[i] <= c.solution_round[q] by {}
    assert forall|g: Seq<u8>| #[trigger] c.admits(g) <==> b.admits(g) by {
        if c.admits(g) {
            assert forall|i: int| 0 <= i < 729 && #[trigger] ruled.possibilities[i] == 0
                implies b.possibilities[i] == 0 by {}
            lemma_admits_fewer(b, ruled, g);
        }
        if b.admits(g) {
            assert forall|p: int| 0 <= p < 81 implies if ruled.solution[p] != 0 {
                #[trigger] g[p] == ruled.solution[p]
            } else {
                ruled.possible(g[p] - 1, p)
            } by {}
        }
    }
}

/// Where a value is still possible somewhere in a house, every admitted grid
/// holds that value in a cell of the house in which it is possible.
pub proof fn lemma_value_lands_on_candidate(
    b: Board,
    g: Seq<u8>,
    kind: House,
    unit: int,
    value_index: int,
    open_index: int,
) -> (index: int)
    requires
        b.wf(),
        b.admits(g),
        0 <= unit < 9,
        0 <= value_index < 9,
        0 <= open_index < 9,
        b.possible(value_index, house_cell(kind, unit, open_index)),
    ensures
        0 <= index < 9,
        g[house_cell(kind, unit, index)] == value_index + 1,
        b.possible(value_index, house_cell(kind, unit, index)),
        b.solution[house_cell(kind, unit, index)] == 0,
{
    let value = (value_index + 1) as u8;
    lemma_house_holds_value(g, kind, unit, value);
    let index = choose|index: int|
        0 <= index < 9 && g[#[trigger] house_cell(kind, unit, index)] == value;
    let c = house_cell(kind, unit, index);
    let o = house_cell(kind, unit, open_index);
    lemma_house_cells(kind, unit, index);
    lemma_house_cells(kind, unit, open_index);
    if b.solution[c] != 0 {
        lemma_same_house(o, c);
        let e = slot(value_index, o);
        assert(covers(c, b.solution[c], e));
    }
    index
}

/// Logging a step and marking its cell give the same board in either order.
pub proof fn lemma_logged_then_marked(b: Board, position: int, round: u8, value: u8, item: LogItem)
    ensures
        b.logged(item).marked(position, round, value) == b.marked(position, round, value).logged(
            item,
        ),
        b.logged(item).markable(position, value) == b.markable(position, value),
{
}

/// Solved-board well-formedness. In a valid grid every row, column and
/// section holds each value from 1 to 9 exactly once: the value stands at
/// some index of the house, and at no other.
pub proof fn law_house_holds_each_once(g: Seq<u8>, kind: House, unit: int, value: u8)
    requires
        valid_grid(g),
        0 <= unit < 9,
        1 <= value <= 9,
    ensures
        exists|index: int| 0 <= index < 9 && g[#[trigger] house_cell(kind, unit, index)] == value,
        forall|i: int, j: int|
            0 <= i < 9 && 0 <= j < 9 && g[#[trigger] house_cell(kind, unit, i)] == value
                && g[#[trigger] house_cell(kind, unit, j)] == value ==> i == j,
{
    lemma_house_holds_value(g, kind, unit, value);
    assert forall|i: int, j: int|
        0 <= i < 9 && 0 <= j < 9 && g[#[trigger] house_cell(kind, unit, i)] == value
            && g[#[trigger] house_cell(kind, unit, j)] == value implies i == j by {
        if i != j {
            lemma_house_cells(kind, unit, i);
            lemma_house_cells(kind, unit, j);
            let p = house_cell(kind, unit, i);
            let q = house_cell(kind, unit, j);
            lemma_same_house(p, q);
        }
    }
}

/// Round-trip given preservation. Taking up a puzzle leaves the puzzle as it
/// is, taking it up once more changes nothing, and where the puzzle is
/// consistent the board then holds every given.
pub proof fn law_givens_preserved(b: Board, puzzle: Seq<u8>)
    requires
        puzzle.len() == 81,
    ensures
        ({
            let taken = (Board { puzzle, ..b }).with_givens(standing_givens(puzzle));
            &&& taken.puzzle == puzzle
            &&& taken.with_givens(standing_givens(taken.puzzle)) == taken
            &&& consistent(puzzle) ==> taken.solution == puzzle
        }),
{
    if consistent(puzzle) {
        crate::board::lemma_first_clash_none(puzzle, 0);
    }
}

} // verus!
