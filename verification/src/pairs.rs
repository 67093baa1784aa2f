//! The techniques that work on pairs: two cells of a house with the same two
//! possible values ("naked pair"), and two values with the same two possible
//! cells in a house ("hidden pair").

use vstd::prelude::*;
use crate::{Board, QQWing};
use crate::grid::{
    house_cell,
    house_of,
    index_in_house,
    lemma_cell_in_house,
    lemma_house_cells,
    lemma_same_house,
    slot,
    House,
};
use crate::laws::{
    lemma_advance_by_ruling_out,
    lemma_value_lands_on_candidate,
    lemma_zeros_three,
};
use crate::logitem::LogItem;
use crate::logtype::LogType;
use crate::state::{covers, zeros_below};
use crate::{BOARD_SIZE, ROW_COL_SEC_SIZE, UNSET_VALUE};

verus! {

/// The place of a kind of house in the order in which a naked pair tries them.
pub open spec fn house_rank(kind: House) -> int {
    match kind {
        House::Row => 0,
        House::Column => 1,
        House::Section => 2,
    }
}

/// The kind of log item that records a naked pair in a house of a kind.
pub open spec fn naked_pair_type(kind: House) -> LogType {
    match kind {
        House::Row => LogType::NakedPairRow,
        House::Column => LogType::NakedPairColumn,
        House::Section => LogType::NakedPairSection,
    }
}

/// The kind of log item that records a hidden pair in a house of a kind.
pub open spec fn hidden_pair_type(kind: House) -> LogType {
    match kind {
        House::Row => LogType::HiddenPairRow,
        House::Column => LogType::HiddenPairColumn,
        House::Section => LogType::HiddenPairSection,
    }
}

/// Entry `i` is one that a hidden pair rules out: it belongs to one of the
/// pair's two cells and to a value other than the pair's two.
pub open spec fn hidden_pair_entry(
    kind: House,
    unit: int,
    v: int,
    w: int,
    i1: int,
    i2: int,
    i: int,
) -> bool {
    (i / 9 == house_cell(kind, unit, i1) || i / 9 == house_cell(kind, unit, i2)) && i % 9 != v && i
        % 9 != w
}

impl Board {
    /// The same values are possible at two cells.
    pub open spec fn same_candidates(self, a: int, c: int) -> bool {
        forall|v: int| 0 <= v < 9 ==> (self.possible(v, a) <==> #[trigger] self.possible(v, c))
    }

    /// Two cells, the first before the second, at each of which the same two
    /// values are possible and no others.
    pub open spec fn naked_pair(self, a: int, c: int) -> bool {
        &&& 0 <= a < c < 81
        &&& self.candidate_count(a) == 2
        &&& self.candidate_count(c) == 2
        &&& self.same_candidates(a, c)
    }

    /// Entry `i` is one that the naked pair `a`, `c` rules out in their house
    /// of a kind: it belongs to another cell of that house and to a value
    /// possible at `a`.
    pub open spec fn naked_pair_entry(self, kind: House, a: int, c: int, i: int) -> bool {
        house_of(kind, i / 9) == house_of(kind, a) && i / 9 != a && i / 9 != c && self.possible(
            i % 9,
            a,
        )
    }

    /// The naked pair `a`, `c` lies in one house of a kind and has an open
    /// entry to rule out there.
    pub open spec fn naked_pair_works(self, kind: House, a: int, c: int) -> bool {
        &&& self.naked_pair(a, c)
        &&& house_of(kind, a) == house_of(kind, c)
        &&& exists|i: int|
            0 <= i < 729 && self.possibilities[i] == 0 && #[trigger] self.naked_pair_entry(
                kind,
                a,
                c,
                i,
            )
    }

    /// The board after a naked pair ruled out its entries in `round`.
    pub open spec fn naked_pair_applied(self, round: u8, kind: House, a: int, c: int) -> Board {
        Board {
            possibilities: Seq::new(
                729,
                |i: int|
                    if self.possibilities[i] == 0 && self.naked_pair_entry(kind, a, c, i) {
                        round
                    } else {
                        self.possibilities[i]
                    },
            ),
            ..self
        }
    }

    /// Some naked pair has something to rule out.
    pub open spec fn has_naked_pair(self) -> bool {
        exists|kind: House, a: int, c: int| #[trigger] self.naked_pair_works(kind, a, c)
    }

    /// This board is `from` after the first naked pair that rules anything
    /// out did so in `round` and was logged. Pairs are tried by first cell,
    /// then by second cell, then in their row, column and section.
    pub open spec fn after_naked_pair(self, from: Board, round: u8) -> bool {
        exists|kind: House, a: int, c: int|
            {
                &&& from.naked_pair_works(kind, a, c)
                &&& forall|k: House, x: int, y: int|
                    (x < a || (x == a && (y < c || (y == c && house_rank(k) < house_rank(kind)))))
                        ==> !#[trigger] from.naked_pair_works(k, x, y)
                &&& self == #[trigger] from.naked_pair_applied(round, kind, a, c).logged(
                    LogItem {
                        round,
                        log_type: naked_pair_type(kind),
                        value: 0,
                        position: a as usize,
                    },
                )
            }
    }

    /// A value is possible in exactly two cells of a house: those at the
    /// indices `i1` and `i2`.
    pub open spec fn twin_places(self, kind: House, unit: int, v: int, i1: int, i2: int) -> bool {
        &&& 0 <= i1 < i2 < 9
        &&& self.possible(v, house_cell(kind, unit, i1))
        &&& self.possible(v, house_cell(kind, unit, i2))
        &&& self.place_count(kind, unit, v) == 2
    }

    /// Two values, the first below the second, are possible in the same two
    /// cells of a house and nowhere else in it, and one of the two cells has
    /// an open entry for another value.
    pub open spec fn hidden_pair_works(
        self,
        kind: House,
        unit: int,
        v: int,
        w: int,
        i1: int,
        i2: int,
    ) -> bool {
        &&& 0 <= unit < 9
        &&& 0 <= v < w < 9
        &&& self.twin_places(kind, unit, v, i1, i2)
        &&& self.twin_places(kind, unit, w, i1, i2)
        &&& exists|i: int|
            0 <= i < 729 && self.possibilities[i] == 0 && #[trigger] hidden_pair_entry(
                kind,
                unit,
                v,
                w,
                i1,
                i2,
                i,
            )
    }

    /// No hidden pair of the two values works in the house.
    pub open spec fn no_hidden_pair(self, kind: House, unit: int, v: int, w: int) -> bool {
        forall|i1: int, i2: int| !#[trigger] self.hidden_pair_works(kind, unit, v, w, i1, i2)
    }

    /// The board after a hidden pair ruled out its entries in `round`.
    pub open spec fn hidden_pair_applied(
        self,
        round: u8,
        kind: House,
        unit: int,
        v: int,
        w: int,
        i1: int,
        i2: int,
    ) -> Board {
        Board {
            possibilities: Seq::new(
                729,
                |i: int|
                    if self.possibilities[i] == 0 && hidden_pair_entry(kind, unit, v, w, i1, i2, i) {
                        round
                    } else {
                        self.possibilities[i]
                    },
            ),
            ..self
        }
    }

    /// Some hidden pair in a house of a kind has something to rule out.
    pub open spec fn has_hidden_pair(self, kind: House) -> bool {
        exists|u: int, x: int, y: int|
            0 <= u < 9 && 0 <= x < 9 && 0 <= y < 9 && !#[trigger] self.no_hidden_pair(kind, u, x, y)
    }

    /// This board is `from` after the first hidden pair that rules anything
    /// out, among the houses of a kind, did so in `round` and was logged.
    /// Pairs are tried by house, then by first value, then by second value.
    pub open spec fn after_hidden_pair(self, from: Board, kind: House, round: u8) -> bool {
        exists|unit: int, v: int, w: int, i1: int, i2: int|
            {
                &&& from.hidden_pair_works(kind, unit, v, w, i1, i2)
                &&& forall|u: int, x: int, y: int|
                    0 <= u < 9 && 0 <= x < 9 && 0 <= y < 9 && (u < unit || (u == unit && (x < v || (
                    x == v && y < w)))) ==> #[trigger] from.no_hidden_pair(kind, u, x, y)
                &&& self == #[trigger] from.hidden_pair_applied(
                    round,
                    kind,
                    unit,
                    v,
                    w,
                    i1,
                    i2,
                ).logged(
                    LogItem {
                        round,
                        log_type: hidden_pair_type(kind),
                        value: (v + 1) as usize,
                        position: house_cell(kind, unit, i1) as usize,
                    },
                )
            }
    }
}

/// A cell at which a value is possible is free.
pub proof fn lemma_candidate_cell_free(b: Board, cell: int, value_index: int)
    requires
        b.wf(),
        0 <= cell < 81,
        0 <= value_index < 9,
        b.possible(value_index, cell),
    ensures
        b.solution[cell] == 0,
{
    let e = slot(value_index, cell);
    if b.solution[cell] != 0 {
        assert(covers(cell, b.solution[cell], e));
    }
}

/// A naked pair rules out nothing that an admitted grid uses.
pub proof fn lemma_naked_pair_sound(b: Board, kind: House, a: int, c: int, g: Seq<u8>, p: int)
    requires
        b.wf(),
        b.naked_pair(a, c),
        house_of(kind, a) == house_of(kind, c),
        0 <= p < 81,
        b.admits(g),
    ensures
        !b.naked_pair_entry(kind, a, c, slot(g[p] - 1, p)),
{
    let e = slot(g[p] - 1, p);
    if b.naked_pair_entry(kind, a, c, e) {
        let es = b.cell_entries(a);
        let fs = b.cell_entries(c);
        lemma_zeros_bounds_two(es);
        lemma_zeros_bounds_two(fs);
        let x = choose|x: int| 0 <= x < 9 && es[x] == 0;
        lemma_candidate_cell_free(b, a, x);
        lemma_candidate_cell_free(b, c, x);
        let va = g[a] - 1;
        let vc = g[c] - 1;
        let vp = g[p] - 1;
        lemma_same_house(a, c);
        lemma_same_house(a, p);
        lemma_same_house(c, p);
        lemma_three_zeros(es, va, vc, vp);
    }
}

/// Nine numbers of which two are counted as zero hold a zero.
pub proof fn lemma_zeros_bounds_two(s: Seq<u8>)
    requires
        zeros_below(s, 9) == 2,
    ensures
        exists|x: int| 0 <= x < 9 && s[x] == 0,
{
    if forall|x: int| 0 <= x < 9 ==> s[x] != 0 {
        let t = Seq::new(81, |i: int| 1u8);
        crate::laws::lemma_zeros_same(s, t, 9);
        crate::laws::lemma_zeros_ones(9);
    }
}

/// Three different zeros are counted at least three times, in whatever order
/// they are named.
pub proof fn lemma_three_zeros(s: Seq<u8>, x: int, y: int, z: int)
    requires
        0 <= x < 9,
        0 <= y < 9,
        0 <= z < 9,
        x != y,
        x != z,
        y != z,
        s[x] == 0,
        s[y] == 0,
        s[z] == 0,
    ensures
        zeros_below(s, 9) >= 3,
{
    if x < y {
        if y < z {
            lemma_zeros_three(s, 9, x, y, z);
        } else if x < z {
            lemma_zeros_three(s, 9, x, z, y);
        } else {
            lemma_zeros_three(s, 9, z, x, y);
        }
    } else {
        if x < z {
            lemma_zeros_three(s, 9, y, x, z);
        } else if y < z {
            lemma_zeros_three(s, 9, y, z, x);
        } else {
            lemma_zeros_three(s, 9, z, y, x);
        }
    }
}

/// A value with twin places stands, in every admitted grid, in one of the
/// two.
pub proof fn lemma_twin_holds_value(
    b: Board,
    kind: House,
    unit: int,
    v: int,
    i1: int,
    i2: int,
    g: Seq<u8>,
)
    requires
        b.wf(),
        0 <= unit < 9,
        0 <= v < 9,
        b.twin_places(kind, unit, v, i1, i2),
        b.admits(g),
    ensures
        g[house_cell(kind, unit, i1)] == v + 1 || g[house_cell(kind, unit, i2)] == v + 1,
{
    let k = lemma_value_lands_on_candidate(b, g, kind, unit, v, i1);
    let es = b.house_entries(kind, unit, v);
    if k != i1 && k != i2 {
        lemma_three_zeros(es, k, i1, i2);
    }
}

/// A value has its twin places at one pair of indices only.
pub proof fn lemma_twin_places_unique(
    b: Board,
    kind: House,
    unit: int,
    v: int,
    i1: int,
    i2: int,
    j1: int,
    j2: int,
)
    requires
        b.twin_places(kind, unit, v, i1, i2),
        b.twin_places(kind, unit, v, j1, j2),
    ensures
        i1 == j1,
        i2 == j2,
{
    let es = b.house_entries(kind, unit, v);
    if j1 != i1 && j1 != i2 {
        lemma_three_zeros(es, j1, i1, i2);
    }
    if j2 != i1 && j2 != i2 {
        lemma_three_zeros(es, j2, i1, i2);
    }
}

/// A hidden pair rules out nothing that an admitted grid uses.
pub proof fn lemma_hidden_pair_sound(
    b: Board,
    kind: House,
    unit: int,
    v: int,
    w: int,
    i1: int,
    i2: int,
    g: Seq<u8>,
    p: int,
)
    requires
        b.wf(),
        0 <= unit < 9,
        0 <= v < w < 9,
        b.twin_places(kind, unit, v, i1, i2),
        b.twin_places(kind, unit, w, i1, i2),
        0 <= p < 81,
        b.admits(g),
    ensures
        !hidden_pair_entry(kind, unit, v, w, i1, i2, slot(g[p] - 1, p)),
{
    lemma_twin_holds_value(b, kind, unit, v, i1, i2, g);
    lemma_twin_holds_value(b, kind, unit, w, i1, i2, g);
}

impl QQWing {
    /// Rules out, in every other cell of the house of a kind that holds the
    /// two cells, the values possible at the first of them. Says whether this
    /// ruled anything out.
    pub fn rule_out_naked_pair(
        &mut self,
        kind: House,
        position: usize,
        position2: usize,
        round: u8,
    ) -> (done_something: bool)
        requires
            old(self)@.possibilities.len() == 729,
            position < 81,
            position2 < 81,
        ensures
            done_something == (exists|i: int|
                0 <= i < 729 && old(self)@.possibilities[i] == 0 && #[trigger] old(
                    self,
                )@.naked_pair_entry(kind, position as int, position2 as int, i)),
            final(self)@ == old(self)@.naked_pair_applied(
                round,
                kind,
                position as int,
                position2 as int,
            ),
            !done_something ==> final(self)@ == old(self)@,
    {
        let mut done_something = false;
        let unit = QQWing::cell_to_house(kind, position);
        let ghost start = self@;
        let ghost a = position as int;
        let ghost c = position2 as int;
        for index in 0..ROW_COL_SEC_SIZE
            invariant
                start.possibilities.len() == 729,
                position < 81,
                position2 < 81,
                a == position,
                c == position2,
                unit == house_of(kind, a),
                unit < 9,
                self@ == (Board { possibilities: self@.possibilities, ..start }),
                self@.possibilities.len() == 729,
                done_something == (exists|i: int|
                    0 <= i < 729 && start.possibilities[i] == 0 && index_in_house(kind, i / 9)
                        < index && #[trigger] start.naked_pair_entry(kind, a, c, i)),
                forall|i: int|
                    0 <= i < 729 ==> #[trigger] self@.possibilities[i] == (if start.possibilities[i]
                        == 0 && start.naked_pair_entry(kind, a, c, i) && index_in_house(kind, i / 9)
                        < index {
                        round
                    } else {
                        start.possibilities[i]
                    }),
        {
            let position3 = QQWing::house_to_cell(kind, unit, index);
            let ghost before = self@;
            let ghost was_done = done_something;
            proof {
                assert forall|v: int| 0 <= v < 9 implies (before.possible(v, a) <==> start.possible(
                    v,
                    a,
                )) by {
                    let e = slot(v, a);
                    assert(e / 9 == a);
                    assert(!start.naked_pair_entry(kind, a, c, e));
                }
            }
            if position3 != position && position3 != position2
                && self.remove_possibilities_in_one_from_two(position, position3, round) {
                done_something = true;
            }
            proof {
                let third = position3 as int;
                lemma_house_cells(kind, unit as int, index as int);
                assert forall|i: int| 0 <= i < 729 implies #[trigger] self@.possibilities[i] == (
                if start.possibilities[i] == 0 && start.naked_pair_entry(kind, a, c, i)
                    && index_in_house(kind, i / 9) < index + 1 {
                    round
                } else {
                    start.possibilities[i]
                }) by {
                    lemma_cell_in_house(kind, i / 9);
                    if i / 9 == third {
                        assert(start.possibilities[i] == before.possibilities[i]);
                    }
                }
                if done_something && !was_done {
                    let v = choose|v: int|
                        0 <= v < 9 && before.possible(v, a) && #[trigger] before.possible(v, third);
                    let e = slot(v, third);
                    assert(e / 9 == third && e % 9 == v);
                    assert(start.possibilities[e] == 0);
                    assert(start.naked_pair_entry(kind, a, c, e));
                    assert(index_in_house(kind, e / 9) < index + 1);
                } else if was_done {
                    let w = choose|i: int|
                        0 <= i < 729 && start.possibilities[i] == 0 && index_in_house(kind, i / 9)
                            < index && #[trigger] start.naked_pair_entry(kind, a, c, i);
                    assert(index_in_house(kind, w / 9) < index + 1);
                } else {
                    assert forall|i: int|
                        0 <= i < 729 && start.possibilities[i] == 0 && index_in_house(kind, i / 9)
                            < index + 1 implies !#[trigger] start.naked_pair_entry(
                        kind,
                        a,
                        c,
                        i,
                    ) by {
                        lemma_cell_in_house(kind, i / 9);
                        if index_in_house(kind, i / 9) == index && start.naked_pair_entry(
                            kind,
                            a,
                            c,
                            i,
                        ) {
                            assert(i / 9 == third);
                            assert(before.possibilities[i] == 0);
                            assert(i == slot(i % 9, third));
                            assert(before.possible(i % 9, a) && before.possible(i % 9, third));
                        }
                    }
                }
            }
        }
        proof {
            let want = start.naked_pair_applied(round, kind, a, c).possibilities;
            assert forall|i: int| 0 <= i < 729 implies #[trigger] self@.possibilities[i]
                == want[i] by {
                lemma_cell_in_house(kind, i / 9);
            }
            assert(self@.possibilities =~= want);
            if done_something {
                let w = choose|i: int|
                    0 <= i < 729 && start.possibilities[i] == 0 && index_in_house(kind, i / 9) < 9
                        && #[trigger] start.naked_pair_entry(kind, a, c, i);
                assert(start.naked_pair_entry(kind, a, c, w));
            } else {
                assert forall|i: int|
                    0 <= i < 729 && start.possibilities[i]
                        == 0 implies !#[trigger] start.naked_pair_entry(kind, a, c, i) by {
                    lemma_cell_in_house(kind, i / 9);
                }
                assert(self@.possibilities =~= start.possibilities);
            }
        }
        done_something
    }

    /// Tries the naked pair of two cells in their house of a kind: where both
    /// lie in one such house, rules out their values in its other cells, and
    /// logs the step if this ruled anything out.
    pub fn try_naked_pair(&mut self, kind: House, position: usize, position2: usize, round: u8) -> (res:
        bool)
        requires
            old(self)@.wf(),
            round >= 1,
            old(self)@.stamps_at_most(round as int),
            old(self)@.naked_pair(position as int, position2 as int),
        ensures
            final(self)@.advances(old(self)@, round, res),
            res == old(self)@.naked_pair_works(kind, position as int, position2 as int),
            res ==> final(self)@ == old(self)@.naked_pair_applied(
                round,
                kind,
                position as int,
                position2 as int,
            ).logged(
                LogItem { round, log_type: naked_pair_type(kind), value: 0, position: position },
            ),
    {
        let ghost b = self@;
        let ghost a = position as int;
        let ghost c = position2 as int;
        if QQWing::cell_to_house(kind, position) == QQWing::cell_to_house(kind, position2) {
            let done_something = self.rule_out_naked_pair(kind, position, position2, round);
            if done_something {
                let log_type = match kind {
                    House::Row => LogType::NakedPairRow,
                    House::Column => LogType::NakedPairColumn,
                    House::Section => LogType::NakedPairSection,
                };
                let ghost item = LogItem { round, log_type, value: 0, position };
                proof {
                    let ruled = self@;
                    assert forall|g: Seq<u8>, p: int|
                        b.admits(g) && 0 <= p < 81 && b.solution[p]
                            == 0 implies #[trigger] ruled.possible(g[p] - 1, p) by {
                        lemma_naked_pair_sound(b, kind, a, c, g, p);
                        assert(b.possible(g[p] - 1, p));
                    }
                    let w = choose|i: int|
                        0 <= i < 729 && b.possibilities[i] == 0 && #[trigger] b.naked_pair_entry(
                            kind,
                            a,
                            c,
                            i,
                        );
                    assert(b.possibilities[w] == 0 && ruled.possibilities[w] != 0);
                    lemma_advance_by_ruling_out(b, ruled, round, item);
                }
                if self.log_history || self.record_history {
                    self.add_history_item(LogItem::new(round, log_type, 0, position));
                }
                return true;
            }
        }
        proof {
            crate::laws::lemma_extends_self(b, round);
        }
        false
    }

    /// Where two cells of a row, column or section have the same two possible
    /// values and no others, rules those values out in the other cells of
    /// that house. Makes the first such step that rules anything out.
    pub fn handle_naked_pairs(&mut self, round: u8) -> (res: bool)
        requires
            old(self)@.wf(),
            round >= 1,
            old(self)@.stamps_at_most(round as int),
        ensures
            final(self)@.advances(old(self)@, round, res),
            res == old(self)@.has_naked_pair(),
            res ==> final(self)@.after_naked_pair(old(self)@, round),
    {
        for position in 0..BOARD_SIZE
            invariant
                self@ == old(self)@,
                self@.wf(),
                round >= 1,
                self@.stamps_at_most(round as int),
                forall|k: House, x: int, y: int|
                    x < position ==> !#[trigger] self@.naked_pair_works(k, x, y),
        {
            let possibilities = self.count_possibilities(position);
            if possibilities == 2 {
                for position2 in position..BOARD_SIZE
                    invariant
                        position < 81,
                        self@ == old(self)@,
                        self@.wf(),
                        round >= 1,
                        self@.stamps_at_most(round as int),
                        self@.candidate_count(position as int) == 2,
                        forall|k: House, x: int, y: int|
                            (x < position || (x == position && y < position2))
                                ==> !#[trigger] self@.naked_pair_works(k, x, y),
                {
                    if position != position2 {
                        let possibilities2 = self.count_possibilities(position2);
                        if possibilities2 == 2 && self.are_possibilities_same(position, position2) {
                            let ghost b = self@;
                            let ghost a = position as int;
                            let ghost c = position2 as int;
                            if self.try_naked_pair(House::Row, position, position2, round) {
                                proof {
                                    self.naked_pair_found(b, House::Row, a, c, round);
                                }
                                return true;
                            }
                            if self.try_naked_pair(House::Column, position, position2, round) {
                                proof {
                                    self.naked_pair_found(b, House::Column, a, c, round);
                                }
                                return true;
                            }
                            if self.try_naked_pair(House::Section, position, position2, round) {
                                proof {
                                    self.naked_pair_found(b, House::Section, a, c, round);
                                }
                                return true;
                            }
                            assert forall|k: House| !#[trigger] b.naked_pair_works(k, a, c) by {
                                match k {
                                    House::Row => {},
                                    House::Column => {},
                                    House::Section => {},
                                }
                            }
                        }
                    }
                }
            }
        }
        false
    }

    /// What follows once a naked pair has been applied and everything tried
    /// before it did not work.
    proof fn naked_pair_found(&self, b: Board, kind: House, a: int, c: int, round: u8)
        requires
            b.naked_pair_works(kind, a, c),
            forall|k: House, x: int, y: int|
                (x < a || (x == a && y < c)) ==> !#[trigger] b.naked_pair_works(k, x, y),
            forall|k: House| house_rank(k) < house_rank(kind) ==> !#[trigger] b.naked_pair_works(k, a, c),
            self@ == b.naked_pair_applied(round, kind, a, c).logged(
                LogItem {
                    round,
                    log_type: naked_pair_type(kind),
                    value: 0,
                    position: a as usize,
                },
            ),
        ensures
            self@.after_naked_pair(b, round),
    {
        assert forall|k: House, x: int, y: int|
            (x < a || (x == a && (y < c || (y == c && house_rank(k) < house_rank(kind)))))
            implies !#[trigger] b.naked_pair_works(k, x, y) by {}
    }

    /// Finds the first two cells of a house in which a value is possible, by
    /// their indices in the house, and counts all such cells. An index not
    /// found is the number that stands for none.
    pub fn pair_places(&self, kind: House, unit: usize, val_index: usize) -> (found: (
        usize,
        usize,
        u32,
    ))
        requires
            self@.possibilities.len() == 729,
            unit < 9,
            val_index < 9,
        ensures
            found.2 == self@.place_count(kind, unit as int, val_index as int),
            found.2 == 0 ==> found.0 == UNSET_VALUE,
            found.2 <= 1 ==> found.1 == UNSET_VALUE,
            found.2 >= 1 ==> found.0 < 9 && self@.possible(
                val_index as int,
                house_cell(kind, unit as int, found.0 as int),
            ) && forall|j: int|
                0 <= j < found.0 ==> !self@.possible(
                    val_index as int,
                    #[trigger] house_cell(kind, unit as int, j),
                ),
            found.2 >= 2 ==> found.0 < found.1 < 9 && self@.possible(
                val_index as int,
                house_cell(kind, unit as int, found.1 as int),
            ) && forall|j: int|
                found.0 < j < found.1 ==> !self@.possible(
                    val_index as int,
                    #[trigger] house_cell(kind, unit as int, j),
                ),
            found.2 == 2 ==> self@.twin_places(
                kind,
                unit as int,
                val_index as int,
                found.0 as int,
                found.1 as int,
            ),
    {
        let mut r1 = UNSET_VALUE;
        let mut r2 = UNSET_VALUE;
        let mut val_count: u32 = 0;
        let ghost u = unit as int;
        let ghost v = val_index as int;
        for index in 0..ROW_COL_SEC_SIZE
            invariant
                self@.possibilities.len() == 729,
                unit < 9,
                val_index < 9,
                u == unit,
                v == val_index,
                val_count == zeros_below(self@.house_entries(kind, u, v), index as int),
                val_count <= index,
                val_count == 0 ==> r1 == UNSET_VALUE && r2 == UNSET_VALUE && forall|j: int|
                    0 <= j < index ==> !self@.possible(v, #[trigger] house_cell(kind, u, j)),
                val_count == 1 ==> r2 == UNSET_VALUE && forall|j: int|
                    r1 < j < index ==> !self@.possible(v, #[trigger] house_cell(kind, u, j)),
                val_count >= 1 ==> r1 < index && self@.possible(v, house_cell(kind, u, r1 as int))
                    && forall|j: int|
                    0 <= j < r1 ==> !self@.possible(v, #[trigger] house_cell(kind, u, j)),
                val_count >= 2 ==> r1 < r2 < index && self@.possible(
                    v,
                    house_cell(kind, u, r2 as int),
                ) && forall|j: int|
                    r1 < j < r2 ==> !self@.possible(v, #[trigger] house_cell(kind, u, j)),
        {
            let position = QQWing::house_to_cell(kind, unit, index);
            let val_pos = QQWing::get_possibility_index(val_index, position);
            if self.possibilities[val_pos] == 0 {
                if r1 == UNSET_VALUE || r1 == index {
                    r1 = index;
                } else if r2 == UNSET_VALUE || r2 == index {
                    r2 = index;
                }
                val_count += 1;
            }
        }
        (r1, r2, val_count)
    }

    /// Rules out, at the two cells of a hidden pair, every value but the
    /// pair's two. Says whether this ruled anything out.
    pub fn rule_out_hidden_pair(
        &mut self,
        kind: House,
        unit: usize,
        val_index: usize,
        val_index2: usize,
        i1: usize,
        i2: usize,
        round: u8,
    ) -> (done_something: bool)
        requires
            old(self)@.possibilities.len() == 729,
            unit < 9,
            val_index < 9,
            val_index2 < 9,
            i1 < 9,
            i2 < 9,
        ensures
            done_something == (exists|i: int|
                0 <= i < 729 && old(self)@.possibilities[i] == 0 && #[trigger] hidden_pair_entry(
                    kind,
                    unit as int,
                    val_index as int,
                    val_index2 as int,
                    i1 as int,
                    i2 as int,
                    i,
                )),
            final(self)@ == old(self)@.hidden_pair_applied(
                round,
                kind,
                unit as int,
                val_index as int,
                val_index2 as int,
                i1 as int,
                i2 as int,
            ),
            !done_something ==> final(self)@ == old(self)@,
    {
        let mut done_something = false;
        let ghost start = self@;
        let ghost u = unit as int;
        let ghost v = val_index as int;
        let ghost w = val_index2 as int;
        let ghost j1 = i1 as int;
        let ghost j2 = i2 as int;
        for val_index3 in 0..ROW_COL_SEC_SIZE
            invariant
                start.possibilities.len() == 729,
                unit < 9,
                val_index < 9,
                val_index2 < 9,
                i1 < 9,
                i2 < 9,
                u == unit,
                v == val_index,
                w == val_index2,
                j1 == i1,
                j2 == i2,
                self@ == (Board { possibilities: self@.possibilities, ..start }),
                self@.possibilities.len() == 729,
                done_something == (exists|i: int|
                    0 <= i < 729 && start.possibilities[i] == 0 && i % 9 < val_index3
                        && #[trigger] hidden_pair_entry(kind, u, v, w, j1, j2, i)),
                forall|i: int|
                    0 <= i < 729 ==> #[trigger] self@.possibilities[i] == (if start.possibilities[i]
                        == 0 && hidden_pair_entry(kind, u, v, w, j1, j2, i) && i % 9 < val_index3 {
                        round
                    } else {
                        start.possibilities[i]
                    }),
        {
            let ghost was_done = done_something;
            if val_index3 != val_index && val_index3 != val_index2 {
                let position1 = QQWing::house_to_cell(kind, unit, i1);
                let position2 = QQWing::house_to_cell(kind, unit, i2);
                let val_pos1 = QQWing::get_possibility_index(val_index3, position1);
                let val_pos2 = QQWing::get_possibility_index(val_index3, position2);
                if self.possibilities[val_pos1] == 0 {
                    self.possibilities[val_pos1] = round;
                    done_something = true;
                    assert(hidden_pair_entry(kind, u, v, w, j1, j2, val_pos1 as int));
                }
                if self.possibilities[val_pos2] == 0 {
                    self.possibilities[val_pos2] = round;
                    done_something = true;
                    assert(hidden_pair_entry(kind, u, v, w, j1, j2, val_pos2 as int));
                }
            }
            proof {
                let c1 = house_cell(kind, u, j1);
                let c2 = house_cell(kind, u, j2);
                assert forall|i: int| 0 <= i < 729 implies #[trigger] self@.possibilities[i] == (
                if start.possibilities[i] == 0 && hidden_pair_entry(kind, u, v, w, j1, j2, i) && i
                    % 9 < val_index3 + 1 {
                    round
                } else {
                    start.possibilities[i]
                }) by {}
                if was_done {
                    let x = choose|i: int|
                        0 <= i < 729 && start.possibilities[i] == 0 && i % 9 < val_index3
                            && #[trigger] hidden_pair_entry(kind, u, v, w, j1, j2, i);
                } else if !done_something {
                    assert forall|i: int|
                        0 <= i < 729 && start.possibilities[i] == 0 && i % 9 < val_index3
                            + 1 implies !#[trigger] hidden_pair_entry(kind, u, v, w, j1, j2, i) by {}
                }
            }
        }
        proof {
            let want = start.hidden_pair_applied(round, kind, u, v, w, j1, j2).possibilities;
            assert(self@.possibilities =~= want);
            if done_something {
                let x = choose|i: int|
                    0 <= i < 729 && start.possibilities[i] == 0 && i % 9 < 9
                        && #[trigger] hidden_pair_entry(kind, u, v, w, j1, j2, i);
            } else {
                assert(self@.possibilities =~= start.possibilities);
            }
        }
        done_something
    }

    /// Where two values are possible in the same two cells of a house of the
    /// kind and nowhere else in it, rules out every other value at those two
    /// cells. Makes the first such step that rules anything out.
    pub fn hidden_pair_in_house(&mut self, kind: House, round: u8) -> (res: bool)
        requires
            old(self)@.wf(),
            round >= 1,
            old(self)@.stamps_at_most(round as int),
        ensures
            final(self)@.advances(old(self)@, round, res),
            res == old(self)@.has_hidden_pair(kind),
            res ==> final(self)@.after_hidden_pair(old(self)@, kind, round),
    {
        for unit in 0..ROW_COL_SEC_SIZE
            invariant
                self@ == old(self)@,
                self@.wf(),
                round >= 1,
                self@.stamps_at_most(round as int),
                forall|u: int, x: int, y: int|
                    0 <= u < unit && 0 <= x < 9 && 0 <= y < 9 ==> #[trigger] self@.no_hidden_pair(
                        kind,
                        u,
                        x,
                        y,
                    ),
        {
            for val_index in 0..ROW_COL_SEC_SIZE
                invariant
                    unit < 9,
                    self@ == old(self)@,
                    self@.wf(),
                    round >= 1,
                    self@.stamps_at_most(round as int),
                    forall|u: int, x: int, y: int|
                        0 <= u < 9 && 0 <= x < 9 && 0 <= y < 9 && (u < unit || (u == unit && x
                            < val_index)) ==> #[trigger] self@.no_hidden_pair(kind, u, x, y),
            {
                let (r1, r2, val_count) = self.pair_places(kind, unit, val_index);
                let ghost b = self@;
                let ghost u = unit as int;
                let ghost v = val_index as int;
                if val_count == 2 {
                    for val_index2 in (val_index + 1)..ROW_COL_SEC_SIZE
                        invariant
                            unit < 9,
                            val_index < 9,
                            u == unit,
                            v == val_index,
                            b == self@,
                            self@ == old(self)@,
                            self@.wf(),
                            round >= 1,
                            self@.stamps_at_most(round as int),
                            self@.twin_places(kind, u, v, r1 as int, r2 as int),
                            forall|ux: int, x: int, y: int|
                                0 <= ux < 9 && 0 <= x < 9 && 0 <= y < 9 && (ux < unit || (ux == unit
                                    && (x < val_index || (x == val_index && y < val_index2))))
                                    ==> #[trigger] self@.no_hidden_pair(kind, ux, x, y),
                    {
                        let (r3, r4, val_count2) = self.pair_places(kind, unit, val_index2);
                        let ghost w = val_index2 as int;
                        if val_count2 == 2 && r1 == r3 && r2 == r4 {
                            let done_something = self.rule_out_hidden_pair(
                                kind,
                                unit,
                                val_index,
                                val_index2,
                                r1,
                                r2,
                                round,
                            );
                            if done_something {
                                let log_type = match kind {
                                    House::Row => LogType::HiddenPairRow,
                                    House::Column => LogType::HiddenPairColumn,
                                    House::Section => LogType::HiddenPairSection,
                                };
                                let position = QQWing::house_to_cell(kind, unit, r1);
                                let ghost item = LogItem {
                                    round,
                                    log_type,
                                    value: (val_index + 1) as usize,
                                    position,
                                };
                                proof {
                                    let ruled = self@;
                                    let i1 = r1 as int;
                                    let i2 = r2 as int;
                                    assert forall|g: Seq<u8>, p: int|
                                        b.admits(g) && 0 <= p < 81 && b.solution[p]
                                            == 0 implies #[trigger] ruled.possible(g[p] - 1, p) by {
                                        lemma_hidden_pair_sound(b, kind, u, v, w, i1, i2, g, p);
                                    }
                                    let x = choose|i: int|
                                        0 <= i < 729 && b.possibilities[i] == 0
                                            && #[trigger] hidden_pair_entry(
                                            kind,
                                            u,
                                            v,
                                            w,
                                            i1,
                                            i2,
                                            i,
                                        );
                                    assert(b.possibilities[x] == 0 && ruled.possibilities[x] != 0);
                                    lemma_advance_by_ruling_out(b, ruled, round, item);
                                }
                                if self.log_history || self.record_history {
                                    self.add_history_item(
                                        LogItem::new(round, log_type, val_index + 1, position),
                                    );
                                }
                                proof {
                                    let i1 = r1 as int;
                                    let i2 = r2 as int;
                                    assert(b.hidden_pair_works(kind, u, v, w, i1, i2));
                                    assert(!b.no_hidden_pair(kind, u, v, w));
                                    assert(item == (LogItem {
                                        round,
                                        log_type: hidden_pair_type(kind),
                                        value: (v + 1) as usize,
                                        position: house_cell(kind, u, i1) as usize,
                                    }));
                                }
                                return true;
                            }
                        }
                        proof {
                            assert forall|j1: int, j2: int| !#[trigger] b.hidden_pair_works(
                                kind,
                                u,
                                v,
                                w,
                                j1,
                                j2,
                            ) by {
                                if b.twin_places(kind, u, v, j1, j2) && b.twin_places(
                                    kind,
                                    u,
                                    w,
                                    j1,
                                    j2,
                                ) {
                                    lemma_twin_places_unique(
                                        b,
                                        kind,
                                        u,
                                        v,
                                        r1 as int,
                                        r2 as int,
                                        j1,
                                        j2,
                                    );
                                    lemma_twin_places_unique(
                                        b,
                                        kind,
                                        u,
                                        w,
                                        r3 as int,
                                        r4 as int,
                                        j1,
                                        j2,
                                    );
                                }
                            }
                            assert(b.no_hidden_pair(kind, u, v, w));
                        }
                    }
                }
                proof {
                    assert forall|y: int| 0 <= y < 9 implies #[trigger] b.no_hidden_pair(
                        kind,
                        u,
                        v,
                        y,
                    ) by {
                        if val_count != 2 || y <= v {
                            assert forall|j1: int, j2: int| !#[trigger] b.hidden_pair_works(
                                kind,
                                u,
                                v,
                                y,
                                j1,
                                j2,
                            ) by {}
                        }
                    }
                }
            }
        }
        false
    }

    /// Hidden pairs in rows.
    pub fn hidden_pair_in_row(&mut self, round: u8) -> (res: bool)
        requires
            old(self)@.wf(),
            round >= 1,
            old(self)@.stamps_at_most(round as int),
        ensures
            final(self)@.advances(old(self)@, round, res),
            res == old(self)@.has_hidden_pair(House::Row),
            res ==> final(self)@.after_hidden_pair(old(self)@, House::Row, round),
    {
        self.hidden_pair_in_house(House::Row, round)
    }

    /// Hidden pairs in columns.
    pub fn hidden_pair_in_column(&mut self, round: u8) -> (res: bool)
        requires
            old(self)@.wf(),
            round >= 1,
            old(self)@.stamps_at_most(round as int),
        ensures
            final(self)@.advances(old(self)@, round, res),
            res == old(self)@.has_hidden_pair(House::Column),
            res ==> final(self)@.after_hidden_pair(old(self)@, House::Column, round),
    {
        self.hidden_pair_in_house(House::Column, round)
    }

    /// Hidden pairs in sections.
    pub fn hidden_pair_in_section(&mut self, round: u8) -> (res: bool)
        requires
            old(self)@.wf(),
            round >= 1,
            old(self)@.stamps_at_most(round as int),
        ensures
            final(self)@.advances(old(self)@, round, res),
            res == old(self)@.has_hidden_pair(House::Section),
            res ==> final(self)@.after_hidden_pair(old(self)@, House::Section, round),
    {
        self.hidden_pair_in_house(House::Section, round)
    }
}

/// The step that applies a naked pair is decided by the board and the round.
pub proof fn lemma_naked_pair_determined(b: Board, x: Board, y: Board, round: u8)
    requires
        x.after_naked_pair(b, round),
        y.after_naked_pair(b, round),
    ensures
        x == y,
{
    let (k1, a1, c1) = choose|kind: House, a: int, c: int|
        {
            &&& b.naked_pair_works(kind, a, c)
            &&& forall|k: House, x: int, y: int|
                (x < a || (x == a && (y < c || (y == c && house_rank(k) < house_rank(kind)))))
                    ==> !#[trigger] b.naked_pair_works(k, x, y)
            &&& x == #[trigger] b.naked_pair_applied(round, kind, a, c).logged(
                LogItem { round, log_type: naked_pair_type(kind), value: 0, position: a as usize },
            )
        };
    let (k2, a2, c2) = choose|kind: House, a: int, c: int|
        {
            &&& b.naked_pair_works(kind, a, c)
            &&& forall|k: House, x: int, y: int|
                (x < a || (x == a && (y < c || (y == c && house_rank(k) < house_rank(kind)))))
                    ==> !#[trigger] b.naked_pair_works(k, x, y)
            &&& y == #[trigger] b.naked_pair_applied(round, kind, a, c).logged(
                LogItem { round, log_type: naked_pair_type(kind), value: 0, position: a as usize },
            )
        };
    assert(a1 == a2 && c1 == c2);
}

/// The step that applies a hidden pair is decided by the board, the kind of
/// house and the round.
pub proof fn lemma_hidden_pair_determined(b: Board, x: Board, y: Board, kind: House, round: u8)
    requires
        x.after_hidden_pair(b, kind, round),
        y.after_hidden_pair(b, kind, round),
    ensures
        x == y,
{
    let (u1, v1, w1, i1, j1) = choose|unit: int, v: int, w: int, i1: int, i2: int|
        {
            &&& b.hidden_pair_works(kind, unit, v, w, i1, i2)
            &&& forall|u: int, x: int, y: int|
                0 <= u < 9 && 0 <= x < 9 && 0 <= y < 9 && (u < unit || (u == unit && (x < v || (x
                    == v && y < w)))) ==> #[trigger] b.no_hidden_pair(kind, u, x, y)
            &&& x == #[trigger] b.hidden_pair_applied(round, kind, unit, v, w, i1, i2).logged(
                LogItem {
                    round,
                    log_type: hidden_pair_type(kind),
                    value: (v + 1) as usize,
                    position: house_cell(kind, unit, i1) as usize,
                },
            )
        };
    let (u2, v2, w2, i2, j2) = choose|unit: int, v: int, w: int, i1: int, i2: int|
        {
            &&& b.hidden_pair_works(kind, unit, v, w, i1, i2)
            &&& forall|u: int, x: int, y: int|
                0 <= u < 9 && 0 <= x < 9 && 0 <= y < 9 && (u < unit || (u == unit && (x < v || (x
                    == v && y < w)))) ==> #[trigger] b.no_hidden_pair(kind, u, x, y)
            &&& y == #[trigger] b.hidden_pair_applied(round, kind, unit, v, w, i1, i2).logged(
                LogItem {
                    round,
                    log_type: hidden_pair_type(kind),
                    value: (v + 1) as usize,
                    position: house_cell(kind, unit, i1) as usize,
                },
            )
        };
    assert(!b.no_hidden_pair(kind, u1, v1, w1)) by {}
    assert(!b.no_hidden_pair(kind, u2, v2, w2)) by {}
    lemma_twin_places_unique(b, kind, u1, v1, i1, j1, i2, j2);
}

} // verus!
