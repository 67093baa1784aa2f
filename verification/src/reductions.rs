//! The techniques that work where a section crosses a row or a column: a
//! value that, within one house, is possible only where the house crosses
//! another cannot stand anywhere else in that other house.

use vstd::prelude::*;
use crate::{Board, QQWing};
use crate::grid::{
    house_cell,
    house_of,
    index_in_house,
    lemma_cell_in_house,
    lemma_house_cells,
    lemma_same_house,
    slot,
    House,
};
use crate::laws::{lemma_advance_by_ruling_out, lemma_value_lands_on_candidate};
use crate::logitem::LogItem;
use crate::logtype::LogType;
use crate::{ROW_COL_SEC_SIZE, UNSET_VALUE};

verus! {

/// A section and a line, in either order: the pairs of kinds of house between
/// which a reduction works.
pub open spec fn crossing(from: House, to: House) -> bool {
    (from == House::Section && to != House::Section) || (from != House::Section && to
        == House::Section)
}

/// The kind of log item that records a reduction from one kind of house to
/// another.
pub open spec fn reduction_type(from: House, to: House) -> LogType {
    match (from, to) {
        (House::Section, House::Row) => LogType::PointingPairTripleRow,
        (House::Section, _) => LogType::PointingPairTripleColumn,
        (House::Row, _) => LogType::RowBox,
        (House::Column, _) => LogType::ColumnBox,
    }
}

/// The cell that the log item of a reduction names: the first cell of the
/// line, whether the line is the house worked from or the house worked on.
pub open spec fn reduction_position(from: House, unit: int, to: House, target: int) -> int {
    if from == House::Section {
        house_cell(to, target, 0)
    } else {
        house_cell(from, unit, 0)
    }
}

/// Entry `i` is one that a reduction rules out: it belongs to the value, at a
/// cell of the house worked on that lies outside the house worked from.
pub open spec fn reduced_entry(
    from: House,
    unit: int,
    value_index: int,
    to: House,
    target: int,
    i: int,
) -> bool {
    i % 9 == value_index && house_of(to, i / 9) == target && house_of(from, i / 9) != unit
}

impl Board {
    /// The value is possible somewhere in the house `unit` of kind `from`, and
    /// only in cells that lie in the house `target` of kind `to`.
    pub open spec fn confined(
        self,
        from: House,
        unit: int,
        value_index: int,
        to: House,
        target: int,
    ) -> bool {
        &&& exists|j: int|
            0 <= j < 9 && self.possible(value_index, #[trigger] house_cell(from, unit, j))
        &&& forall|j: int|
            0 <= j < 9 && self.possible(value_index, #[trigger] house_cell(from, unit, j))
                ==> house_of(to, house_cell(from, unit, j)) == target
    }

    /// A reduction applies: the value is confined, and the house worked on
    /// has an open entry to rule out.
    pub open spec fn reducible(
        self,
        from: House,
        unit: int,
        value_index: int,
        to: House,
        target: int,
    ) -> bool {
        &&& self.confined(from, unit, value_index, to, target)
        &&& exists|i: int|
            0 <= i < 729 && self.possibilities[i] == 0 && #[trigger] reduced_entry(
                from,
                unit,
                value_index,
                to,
                target,
                i,
            )
    }

    /// The board after a reduction ruled out its entries in `round`.
    pub open spec fn reduced(
        self,
        round: u8,
        from: House,
        unit: int,
        value_index: int,
        to: House,
        target: int,
    ) -> Board {
        Board {
            possibilities: Seq::new(
                729,
                |i: int|
                    if self.possibilities[i] == 0 && reduced_entry(
                        from,
                        unit,
                        value_index,
                        to,
                        target,
                        i,
                    ) {
                        round
                    } else {
                        self.possibilities[i]
                    },
            ),
            ..self
        }
    }

    /// No reduction applies to a value in a house, whatever the house worked
    /// on.
    pub open spec fn irreducible(self, from: House, unit: int, value_index: int, to: House) -> bool {
        forall|t: int| 0 <= t < 9 ==> !#[trigger] self.reducible(from, unit, value_index, to, t)
    }

    /// Some reduction from a house of one kind to a house of the other
    /// applies.
    pub open spec fn has_reduction(self, from: House, to: House) -> bool {
        exists|v: int, u: int|
            0 <= v < 9 && 0 <= u < 9 && !#[trigger] self.irreducible(from, u, v, to)
    }

    /// This board is `from_board` after the first reduction that applies was
    /// made in `round` and logged. Values come before houses: the first value
    /// that has one, and for it the first house.
    pub open spec fn after_reduction(self, from_board: Board, from: House, to: House, round: u8) -> bool {
        exists|value_index: int, unit: int, target: int|
            {
                &&& 0 <= value_index < 9
                &&& 0 <= unit < 9
                &&& 0 <= target < 9
                &&& from_board.reducible(from, unit, value_index, to, target)
                &&& forall|v: int, u: int|
                    0 <= v < 9 && 0 <= u < 9 && (v < value_index || (v == value_index && u < unit))
                        ==> #[trigger] from_board.irreducible(from, u, v, to)
                &&& self == #[trigger] from_board.reduced(
                    round,
                    from,
                    unit,
                    value_index,
                    to,
                    target,
                ).logged(
                    LogItem {
                        round,
                        log_type: reduction_type(from, to),
                        value: (value_index + 1) as usize,
                        position: reduction_position(from, unit, to, target) as usize,
                    },
                )
            }
    }
}

/// A reduction rules out nothing that an admitted grid uses.
pub proof fn lemma_reduction_sound(
    b: Board,
    from: House,
    unit: int,
    value_index: int,
    to: House,
    target: int,
    g: Seq<u8>,
    p: int,
)
    requires
        b.wf(),
        0 <= unit < 9,
        0 <= value_index < 9,
        0 <= target < 9,
        0 <= p < 81,
        b.confined(from, unit, value_index, to, target),
        b.admits(g),
    ensures
        !reduced_entry(from, unit, value_index, to, target, slot(g[p] - 1, p)),
{
    let e = slot(g[p] - 1, p);
    if reduced_entry(from, unit, value_index, to, target, e) {
        let j = choose|j: int|
            0 <= j < 9 && b.possible(value_index, #[trigger] house_cell(from, unit, j));
        let k = lemma_value_lands_on_candidate(b, g, from, unit, value_index, j);
        let c = house_cell(from, unit, k);
        lemma_house_cells(from, unit, k);
        lemma_same_house(c, p);
    }
}

impl QQWing {
    /// Looks where a value is possible within a house, and whether all those
    /// cells lie in one house of another kind. Gives that house, or the
    /// number that stands for none where the value is possible nowhere.
    pub fn confinement(&self, from: House, unit: usize, val_index: usize, to: House) -> (found: (
        bool,
        usize,
    ))
        requires
            self@.possibilities.len() == 729,
            unit < 9,
            val_index < 9,
        ensures
            found.1 == UNSET_VALUE <==> forall|j: int|
                0 <= j < 9 ==> !self@.possible(
                    val_index as int,
                    #[trigger] house_cell(from, unit as int, j),
                ),
            found.1 != UNSET_VALUE ==> exists|j: int|
                {
                    &&& 0 <= j < 9
                    &&& self@.possible(val_index as int, #[trigger] house_cell(from, unit as int, j))
                    &&& found.1 == house_of(to, house_cell(from, unit as int, j))
                    &&& forall|k: int|
                        0 <= k < j ==> !self@.possible(
                            val_index as int,
                            #[trigger] house_cell(from, unit as int, k),
                        )
                },
            found.0 <==> forall|j: int|
                0 <= j < 9 && self@.possible(
                    val_index as int,
                    #[trigger] house_cell(from, unit as int, j),
                ) ==> house_of(to, house_cell(from, unit as int, j)) == found.1,
            found.0 && found.1 != UNSET_VALUE ==> found.1 < 9 && self@.confined(
                from,
                unit as int,
                val_index as int,
                to,
                found.1 as int,
            ),
            !(found.0 && found.1 != UNSET_VALUE) ==> forall|t: int|
                0 <= t < 9 ==> !#[trigger] self@.confined(
                    from,
                    unit as int,
                    val_index as int,
                    to,
                    t,
                ),
    {
        let mut in_one = true;
        let mut target = UNSET_VALUE;
        let ghost u = unit as int;
        let ghost v = val_index as int;
        for index in 0..ROW_COL_SEC_SIZE
            invariant
                self@.possibilities.len() == 729,
                unit < 9,
                val_index < 9,
                u == unit,
                v == val_index,
                target == UNSET_VALUE || target < 9,
                target == UNSET_VALUE ==> in_one && forall|j: int|
                    0 <= j < index ==> !self@.possible(v, #[trigger] house_cell(from, u, j)),
                target != UNSET_VALUE ==> exists|j: int|
                    {
                        &&& 0 <= j < index
                        &&& self@.possible(v, #[trigger] house_cell(from, u, j))
                        &&& house_of(to, house_cell(from, u, j)) == target
                        &&& forall|k: int|
                            0 <= k < j ==> !self@.possible(v, #[trigger] house_cell(from, u, k))
                    },
                in_one ==> forall|j: int|
                    0 <= j < index && self@.possible(v, #[trigger] house_cell(from, u, j))
                        ==> house_of(to, house_cell(from, u, j)) == target,
                !in_one ==> exists|j: int|
                    0 <= j < index && self@.possible(v, #[trigger] house_cell(from, u, j))
                        && house_of(to, house_cell(from, u, j)) != target,
        {
            let cell = QQWing::house_to_cell(from, unit, index);
            let val_pos = QQWing::get_possibility_index(val_index, cell);
            if self.possibilities[val_pos] == 0 {
                let t = QQWing::cell_to_house(to, cell);
                if target == UNSET_VALUE || target == t {
                    target = t;
                } else {
                    in_one = false;
                }
            }
        }
        proof {
            if !(in_one && target != UNSET_VALUE) {
                assert forall|t: int| 0 <= t < 9 implies !#[trigger] self@.confined(
                    from,
                    u,
                    v,
                    to,
                    t,
                ) by {
                    if self@.confined(from, u, v, to, t) {
                        if target != UNSET_VALUE {
                            let j1 = choose|j: int|
                                0 <= j < 9 && self@.possible(v, #[trigger] house_cell(from, u, j))
                                    && house_of(to, house_cell(from, u, j)) == target;
                            let j2 = choose|j: int|
                                0 <= j < 9 && self@.possible(v, #[trigger] house_cell(from, u, j))
                                    && house_of(to, house_cell(from, u, j)) != target;
                        } else {
                            let j = choose|j: int|
                                0 <= j < 9 && self@.possible(v, #[trigger] house_cell(from, u, j));
                        }
                    }
                }
            }
        }
        (in_one, target)
    }

    /// Rules out a value in every cell of the house `target` of kind `to`
    /// that lies outside the house `unit` of kind `from`. Says whether this
    /// ruled anything out.
    pub fn rule_out_outside(
        &mut self,
        from: House,
        unit: usize,
        val_index: usize,
        to: House,
        target: usize,
        round: u8,
    ) -> (done_something: bool)
        requires
            old(self)@.possibilities.len() == 729,
            unit < 9,
            val_index < 9,
            target < 9,
        ensures
            done_something == (exists|i: int|
                0 <= i < 729 && old(self)@.possibilities[i] == 0 && #[trigger] reduced_entry(
                    from,
                    unit as int,
                    val_index as int,
                    to,
                    target as int,
                    i,
                )),
            final(self)@ == old(self)@.reduced(
                round,
                from,
                unit as int,
                val_index as int,
                to,
                target as int,
            ),
            !done_something ==> final(self)@ == old(self)@,
    {
        let mut done_something = false;
        let ghost start = self@;
        let ghost u = unit as int;
        let ghost v = val_index as int;
        let ghost t = target as int;
        for index in 0..ROW_COL_SEC_SIZE
            invariant
                start.possibilities.len() == 729,
                unit < 9,
                val_index < 9,
                target < 9,
                u == unit,
                v == val_index,
                t == target,
                self@ == (Board { possibilities: self@.possibilities, ..start }),
                self@.possibilities.len() == 729,
                done_something == (exists|i: int|
                    0 <= i < 729 && start.possibilities[i] == 0 && index_in_house(to, i / 9) < index
                        && #[trigger] reduced_entry(from, u, v, to, t, i)),
                !done_something ==> self@.possibilities == start.possibilities,
                forall|i: int|
                    0 <= i < 729 ==> #[trigger] self@.possibilities[i] == (if start.possibilities[i]
                        == 0 && reduced_entry(from, u, v, to, t, i) && index_in_house(to, i / 9)
                        < index {
                        round
                    } else {
                        start.possibilities[i]
                    }),
        {
            let position = QQWing::house_to_cell(to, target, index);
            let val_pos = QQWing::get_possibility_index(val_index, position);
            let ghost before = self@.possibilities;
            let ghost was_done = done_something;
            if QQWing::cell_to_house(from, position) != unit && self.possibilities[val_pos] == 0 {
                self.possibilities[val_pos] = round;
                done_something = true;
                assert(reduced_entry(from, u, v, to, t, val_pos as int));
            }
            proof {
                lemma_house_cells(to, t, index as int);
                assert forall|i: int| 0 <= i < 729 implies #[trigger] self@.possibilities[i] == (
                if start.possibilities[i] == 0 && reduced_entry(from, u, v, to, t, i)
                    && index_in_house(to, i / 9) < index + 1 {
                    round
                } else {
                    start.possibilities[i]
                }) by {
                    lemma_cell_in_house(to, i / 9);
                }
                if !done_something {
                    assert(self@.possibilities =~= start.possibilities);
                    assert forall|i: int|
                        0 <= i < 729 && start.possibilities[i] == 0 && index_in_house(to, i / 9)
                            < index + 1 implies !#[trigger] reduced_entry(from, u, v, to, t, i) by {
                        lemma_cell_in_house(to, i / 9);
                        if index_in_house(to, i / 9) >= index && reduced_entry(
                            from,
                            u,
                            v,
                            to,
                            t,
                            i,
                        ) {
                            assert(i == val_pos);
                        }
                    }
                } else if was_done {
                    let w = choose|i: int|
                        0 <= i < 729 && start.possibilities[i] == 0 && index_in_house(to, i / 9)
                            < index && #[trigger] reduced_entry(from, u, v, to, t, i);
                    assert(index_in_house(to, w / 9) < index + 1);
                } else {
                    assert(start.possibilities[val_pos as int] == 0);
                    assert(index_in_house(to, val_pos as int / 9) < index + 1);
                }
            }
        }
        proof {
            let want = start.reduced(round, from, u, v, to, t).possibilities;
            assert forall|i: int| 0 <= i < 729 implies #[trigger] self@.possibilities[i]
                == want[i] by {
                lemma_cell_in_house(to, i / 9);
            }
            assert(self@.possibilities =~= want);
            if done_something {
                let w = choose|i: int|
                    0 <= i < 729 && start.possibilities[i] == 0 && index_in_house(to, i / 9) < 9
                        && #[trigger] reduced_entry(from, u, v, to, t, i);
                assert(reduced_entry(from, u, v, to, t, w));
            } else {
                assert forall|i: int|
                    0 <= i < 729 && start.possibilities[i] == 0 implies !#[trigger] reduced_entry(
                    from,
                    u,
                    v,
                    to,
                    t,
                    i,
                ) by {
                    lemma_cell_in_house(to, i / 9);
                }
            }
        }
        done_something
    }

    /// Where a value is possible, within a house of kind `from`, only in cells
    /// of one house of kind `to`, rules it out in the rest of that house.
    /// Makes the first such reduction that rules anything out.
    pub fn intersection_reduction(&mut self, from: House, to: House, round: u8) -> (res: bool)
        requires
            old(self)@.wf(),
            round >= 1,
            old(self)@.stamps_at_most(round as int),
            crossing(from, to),
        ensures
            final(self)@.advances(old(self)@, round, res),
            res == old(self)@.has_reduction(from, to),
            res ==> final(self)@.after_reduction(old(self)@, from, to, round),
    {
        for val_index in 0..ROW_COL_SEC_SIZE
            invariant
                self@ == old(self)@,
                self@.wf(),
                round >= 1,
                self@.stamps_at_most(round as int),
                crossing(from, to),
                forall|v: int, u: int|
                    0 <= v < val_index && 0 <= u < 9 ==> #[trigger] self@.irreducible(from, u, v, to),
        {
            for unit in 0..ROW_COL_SEC_SIZE
                invariant
                    val_index < 9,
                    self@ == old(self)@,
                    self@.wf(),
                    round >= 1,
                    self@.stamps_at_most(round as int),
                    crossing(from, to),
                    forall|v: int, u: int|
                        0 <= v < 9 && 0 <= u < 9 && (v < val_index || (v == val_index && u < unit))
                            ==> #[trigger] self@.irreducible(from, u, v, to),
            {
                let (in_one, target) = self.confinement(from, unit, val_index, to);
                let ghost b = self@;
                let ghost v = val_index as int;
                let ghost u = unit as int;
                if in_one && target != UNSET_VALUE {
                    let ghost t = target as int;
                    let done_something = self.rule_out_outside(
                        from,
                        unit,
                        val_index,
                        to,
                        target,
                        round,
                    );
                    if done_something {
                        let log_type = match from {
                            House::Section => match to {
                                House::Row => LogType::PointingPairTripleRow,
                                _ => LogType::PointingPairTripleColumn,
                            },
                            House::Row => LogType::RowBox,
                            House::Column => LogType::ColumnBox,
                        };
                        let position = match from {
                            House::Section => QQWing::house_to_cell(to, target, 0),
                            _ => QQWing::house_to_cell(from, unit, 0),
                        };
                        let ghost item = LogItem {
                            round,
                            log_type,
                            value: (val_index + 1) as usize,
                            position,
                        };
                        proof {
                            let ruled = self@;
                            assert forall|g: Seq<u8>, p: int|
                                b.admits(g) && 0 <= p < 81 && b.solution[p]
                                    == 0 implies #[trigger] ruled.possible(g[p] - 1, p) by {
                                lemma_reduction_sound(b, from, u, v, to, t, g, p);
                            }
                            let w = choose|i: int|
                                0 <= i < 729 && b.possibilities[i] == 0 && #[trigger] reduced_entry(
                                    from,
                                    u,
                                    v,
                                    to,
                                    t,
                                    i,
                                );
                            assert(b.possibilities[w] == 0 && ruled.possibilities[w] != 0);
                            lemma_advance_by_ruling_out(b, ruled, round, item);
                        }
                        if self.log_history || self.record_history {
                            self.add_history_item(
                                LogItem::new(round, log_type, val_index + 1, position),
                            );
                        }
                        proof {
                            assert(b.reducible(from, u, v, to, t));
                            assert(!b.irreducible(from, u, v, to));
                            assert(item == (LogItem {
                                round,
                                log_type: reduction_type(from, to),
                                value: (v + 1) as usize,
                                position: reduction_position(from, u, to, t) as usize,
                            }));
                        }
                        return true;
                    }
                    proof {
                        assert forall|t2: int| 0 <= t2 < 9 implies !#[trigger] b.reducible(
                            from,
                            u,
                            v,
                            to,
                            t2,
                        ) by {
                            if t2 != t && b.confined(from, u, v, to, t2) {
                                let j = choose|j: int|
                                    0 <= j < 9 && b.possible(v, #[trigger] house_cell(from, u, j));
                            }
                        }
                    }
                }
            }
        }
        false
    }

    /// Where, within a section, a value is possible only in cells of one row,
    /// rules it out in the rest of that row.
    pub fn pointing_row_reduction(&mut self, round: u8) -> (res: bool)
        requires
            old(self)@.wf(),
            round >= 1,
            old(self)@.stamps_at_most(round as int),
        ensures
            final(self)@.advances(old(self)@, round, res),
            res == old(self)@.has_reduction(House::Section, House::Row),
            res ==> final(self)@.after_reduction(old(self)@, House::Section, House::Row, round),
    {
        self.intersection_reduction(House::Section, House::Row, round)
    }

    /// Where, within a section, a value is possible only in cells of one
    /// column, rules it out in the rest of that column.
    pub fn pointing_column_reduction(&mut self, round: u8) -> (res: bool)
        requires
            old(self)@.wf(),
            round >= 1,
            old(self)@.stamps_at_most(round as int),
        ensures
            final(self)@.advances(old(self)@, round, res),
            res == old(self)@.has_reduction(House::Section, House::Column),
            res ==> final(self)@.after_reduction(old(self)@, House::Section, House::Column, round),
    {
        self.intersection_reduction(House::Section, House::Column, round)
    }

    /// Where, within a row, a value is possible only in cells of one section,
    /// rules it out in the rest of that section.
    pub fn row_box_reduction(&mut self, round: u8) -> (res: bool)
        requires
            old(self)@.wf(),
            round >= 1,
            old(self)@.stamps_at_most(round as int),
        ensures
            final(self)@.advances(old(self)@, round, res),
            res == old(self)@.has_reduction(House::Row, House::Section),
            res ==> final(self)@.after_reduction(old(self)@, House::Row, House::Section, round),
    {
        self.intersection_reduction(House::Row, House::Section, round)
    }

    /// Where, within a column, a value is possible only in cells of one
    /// section, rules it out in the rest of that section.
    pub fn col_box_reduction(&mut self, round: u8) -> (res: bool)
        requires
            old(self)@.wf(),
            round >= 1,
            old(self)@.stamps_at_most(round as int),
        ensures
            final(self)@.advances(old(self)@, round, res),
            res == old(self)@.has_reduction(House::Column, House::Section),
            res ==> final(self)@.after_reduction(old(self)@, House::Column, House::Section, round),
    {
        self.intersection_reduction(House::Column, House::Section, round)
    }
}

/// The step that makes a reduction is decided by the board, the kinds of
/// house and the round.
pub proof fn lemma_reduction_determined(
    b: Board,
    x: Board,
    y: Board,
    from: House,
    to: House,
    round: u8,
)
    requires
        x.after_reduction(b, from, to, round),
        y.after_reduction(b, from, to, round),
    ensures
        x == y,
{
    let (v1, u1, t1) = choose|value_index: int, unit: int, target: int|
        {
            &&& 0 <= value_index < 9
            &&& 0 <= unit < 9
            &&& 0 <= target < 9
            &&& b.reducible(from, unit, value_index, to, target)
            &&& forall|v: int, u: int|
                0 <= v < 9 && 0 <= u < 9 && (v < value_index || (v == value_index && u < unit))
                    ==> #[trigger] b.irreducible(from, u, v, to)
            &&& x == #[trigger] b.reduced(round, from, unit, value_index, to, target).logged(
                LogItem {
                    round,
                    log_type: reduction_type(from, to),
                    value: (value_index + 1) as usize,
                    position: reduction_position(from, unit, to, target) as usize,
                },
            )
        };
    let (v2, u2, t2) = choose|value_index: int, unit: int, target: int|
        {
            &&& 0 <= value_index < 9
            &&& 0 <= unit < 9
            &&& 0 <= target < 9
            &&& b.reducible(from, unit, value_index, to, target)
            &&& forall|v: int, u: int|
                0 <= v < 9 && 0 <= u < 9 && (v < value_index || (v == value_index && u < unit))
                    ==> #[trigger] b.irreducible(from, u, v, to)
            &&& y == #[trigger] b.reduced(round, from, unit, value_index, to, target).logged(
                LogItem {
                    round,
                    log_type: reduction_type(from, to),
                    value: (value_index + 1) as usize,
                    position: reduction_position(from, unit, to, target) as usize,
                },
            )
        };
    assert(!b.irreducible(from, u1, v1, to)) by {}
    assert(!b.irreducible(from, u2, v2, to)) by {}
}

} // verus!
