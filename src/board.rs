//! The grid of 81 cells and the elimination step that solves it.

use vstd::prelude::*;
use vstd::set_lib::lemma_int_range;
use vstd::set_lib::lemma_len_subset;
use vstd::set_lib::set_int_range;

use crate::board_index::entangled_with;
use crate::board_index::is_position;
use crate::board_index::lists_entangled;
use crate::board_index::box_of;
use crate::board_index::col_of;
use crate::board_index::row_of;
use crate::board_index::BoardIndex;
use crate::cell::is_digit;
use crate::cell::lemma_without_contains;
use crate::cell::lemma_without_no_duplicates;
use crate::cell::without;
use crate::cell::append;
use crate::cell::difference;
use crate::cell::subtract;
use crate::cell::Cell;
use crate::cell::CellModel;

verus! {

/// A board as plain values.
pub open spec fn board_model(cells: Seq<Cell>) -> Seq<CellModel> {
    Seq::new(cells.len(), |p: int| cells[p].model())
}

/// The positions `0..n` whose cells hold no value, ascending.
pub open spec fn unsolved_positions(cells: Seq<CellModel>, n: int) -> Seq<int>
    decreases n,
{
    if n <= 0 {
        Seq::empty()
    } else if cells[n - 1].value is None {
        unsolved_positions(cells, n - 1).push(n - 1)
    } else {
        unsolved_positions(cells, n - 1)
    }
}

/// The values held at `indexes`, in their order, open cells skipped.
pub open spec fn held_values(cells: Seq<Cell>, indexes: Seq<BoardIndex>) -> Seq<u8>
    decreases indexes.len(),
{
    if indexes.len() == 0 {
        Seq::empty()
    } else {
        let rest = held_values(cells, indexes.drop_last());
        match cells[indexes.last().value as int].value {
            Some(d) => rest.push(d),
            None => rest,
        }
    }
}

/// Some position entangled with `i` holds the value `d`.
pub open spec fn taken(cells: Seq<CellModel>, i: int, d: u8) -> bool {
    exists|j: int| entangled_with(i, j) && #[trigger] cells[j].value == Some(d)
}

/// The candidates of cell `i` that no entangled position holds, order kept.
pub open spec fn remaining(cells: Seq<CellModel>, i: int) -> Seq<u8> {
    cells[i].options.filter(|d: u8| !taken(cells, i, d))
}

/// No two entangled positions hold the same value.
pub open spec fn consistent(cells: Seq<Cell>) -> bool {
    forall|i: int, j: int|
        #![trigger cells[i].value, cells[j].value]
        is_position(i) && entangled_with(i, j) && cells[i].value is Some ==> cells[i].value != cells[j].value
}

/// One elimination step at position `i`: `None` on a contradiction, else
/// the board after it. A committed cell is left alone; otherwise its
/// candidates lose every value held by an entangled position, and when one
/// is left the cell takes it and it leaves every entangled position's
/// candidates.
pub open spec fn collapse_step(m: Seq<CellModel>, i: int) -> Option<Seq<CellModel>> {
    if m[i].value is Some {
        Some(m)
    } else {
        let rem = remaining(m, i);
        if rem.len() == 0 {
            None
        } else if rem.len() == 1 {
            Some(
                Seq::new(
                    m.len(),
                    |p: int|
                        if p == i {
                            CellModel { value: Some(rem[0]), options: Seq::empty(), ..m[i] }
                        } else if entangled_with(i, p) {
                            CellModel { options: without(m[p].options, seq![rem[0]]), ..m[p] }
                        } else {
                            m[p]
                        },
                ),
            )
        } else {
            Some(m.update(i, CellModel { options: rem, ..m[i] }))
        }
    }
}

/// The steps at each of `todo`, first to last, stopping at a contradiction.
pub open spec fn pass_over(m: Seq<CellModel>, todo: Seq<int>) -> Option<Seq<CellModel>>
    decreases todo.len(),
{
    if todo.len() == 0 {
        Some(m)
    } else {
        match collapse_step(m, todo[0]) {
            Some(next) => pass_over(next, todo.subrange(1, todo.len() as int)),
            None => None,
        }
    }
}

/// Up to `passes` passes, each over the positions open when it starts,
/// ending early once none is open.
pub open spec fn run(m: Seq<CellModel>, passes: nat) -> Option<Seq<CellModel>>
    decreases passes,
{
    if passes == 0 || unsolved_positions(m, 81).len() == 0 {
        Some(m)
    } else {
        match pass_over(m, unsolved_positions(m, 81)) {
            Some(next) => run(next, (passes - 1) as nat),
            None => None,
        }
    }
}

/// `a` and `b` differ at most in their candidates.
pub open spec fn same_but_options(a: Cell, b: Cell) -> bool {
    &&& a.index == b.index
    &&& a.initial == b.initial
    &&& a.value == b.value
}

/// `f` is `b` after cell `i` took the value `d`: the cell's candidates are
/// cleared and `d` leaves the candidates of every position entangled with `i`.
pub open spec fn committed(b: Seq<Cell>, f: Seq<Cell>, i: int, d: u8) -> bool {
    &&& f.len() == b.len()
    &&& f[i].value == Some(d)
    &&& f[i].options@.len() == 0
    &&& f[i].index == b[i].index
    &&& f[i].initial == b[i].initial
    &&& forall|p: int|
        #![trigger f[p]]
        0 <= p < b.len() && p != i ==> if entangled_with(i, p) {
            same_but_options(f[p], b[p]) && f[p].options@ == without(b[p].options@, seq![d])
        } else {
            f[p] == b[p]
        }
}

/// `f` is `b` with the candidates of cell `i` replaced by `o`.
pub open spec fn narrowed(b: Seq<Cell>, f: Seq<Cell>, i: int, o: Seq<u8>) -> bool {
    &&& f.len() == b.len()
    &&& same_but_options(f[i], b[i])
    &&& f[i].options@ == o
    &&& forall|p: int| #![trigger f[p]] 0 <= p < b.len() && p != i ==> f[p] == b[p]
}

/// Why solving stopped.
#[derive(Debug)]
pub enum SolveError {
    /// Every candidate of the cell at `index` is held by an entangled position.
    EliminationContradiction { index: BoardIndex, candidates: Vec<u8>, taken: Vec<u8> },
}

/// Taking candidates out of a well-formed cell keeps it well formed, and
/// leaves it no candidate it did not have.
proof fn lemma_narrowed_cell(c: Cell, f: Cell, gone: Seq<u8>)
    requires
        c.wf(),
        same_but_options(f, c),
        f.options@ == without(c.options@, gone),
    ensures
        f.wf(),
        f.options@.to_set().subset_of(c.options@.to_set()),
{
    assert forall|x: u8| f.options@.contains(x) implies c.options@.contains(x) by {
        lemma_without_contains(c.options@, gone, x);
    }
    assert forall|k: int| 0 <= k < f.options@.len() implies is_digit(#[trigger] f.options@[k]) by {
        assert(f.options@.contains(f.options@[k]));
        let j = choose|j: int| 0 <= j < c.options@.len() && c.options@[j] == f.options@[k];
    }
    if c.value is Some {
        if f.options@.len() > 0 {
            assert(f.options@.contains(f.options@[0]));
        }
    } else {
        lemma_without_no_duplicates(c.options@, gone);
    }
}

/// The `m`-th position (0..=8) of unit `g` (0..=8) of a kind: rows for
/// kind 0, columns for kind 1, boxes for kind 2.
pub open spec fn unit_cell(kind: int, g: int, m: int) -> int {
    if kind == 0 {
        g * 9 + m
    } else if kind == 1 {
        m * 9 + g
    } else {
        ((g / 3) * 3 + m / 3) * 9 + (g % 3) * 3 + m % 3
    }
}

/// Unit `g` of the given kind holds the digit `d` at exactly one of its positions.
pub open spec fn holds_once(cells: Seq<Cell>, kind: int, g: int, d: u8) -> bool {
    &&& exists|m: int| 0 <= m < 9 && #[trigger] cells[unit_cell(kind, g, m)].value == Some(d)
    &&& forall|m1: int, m2: int|
        0 <= m1 < 9 && 0 <= m2 < 9 && m1 != m2 && #[trigger] cells[unit_cell(kind, g, m1)].value == Some(d)
            ==> #[trigger] cells[unit_cell(kind, g, m2)].value != Some(d)
}

/// Every row, every column and every box holds each digit exactly once.
pub open spec fn valid_grid(cells: Seq<Cell>) -> bool {
    forall|kind: int, g: int, d: u8|
        0 <= kind < 3 && 0 <= g < 9 && is_digit(d) ==> #[trigger] holds_once(cells, kind, g, d)
}

proof fn lemma_unit_cells(kind: int, g: int, m1: int, m2: int)
    requires
        0 <= kind < 3,
        0 <= g < 9,
        0 <= m1 < 9,
        0 <= m2 < 9,
        m1 != m2,
    ensures
        is_position(unit_cell(kind, g, m1)),
        entangled_with(unit_cell(kind, g, m1), unit_cell(kind, g, m2)),
{
    let (a1, b1) = if kind == 0 {
        (g, m1)
    } else if kind == 1 {
        (m1, g)
    } else {
        ((g / 3) * 3 + m1 / 3, (g % 3) * 3 + m1 % 3)
    };
    let (a2, b2) = if kind == 0 {
        (g, m2)
    } else if kind == 1 {
        (m2, g)
    } else {
        ((g / 3) * 3 + m2 / 3, (g % 3) * 3 + m2 % 3)
    };
    assert(unit_cell(kind, g, m1) == a1 * 9 + b1);
    assert(unit_cell(kind, g, m2) == a2 * 9 + b2);
    assert((a1 * 9 + b1) / 9 == a1 && (a1 * 9 + b1) % 9 == b1);
    assert((a2 * 9 + b2) / 9 == a2 && (a2 * 9 + b2) % 9 == b2);
    if kind == 2 {
        assert(a1 / 3 == g / 3 && a2 / 3 == g / 3);
        assert(b1 / 3 == g % 3 && b2 / 3 == g % 3);
        assert(m1 == (m1 / 3) * 3 + m1 % 3 && m2 == (m2 / 3) * 3 + m2 % 3);
    }
    assert(row_of(a1 * 9 + b1) == a1 && col_of(a1 * 9 + b1) == b1);
    assert(row_of(a2 * 9 + b2) == a2 && col_of(a2 * 9 + b2) == b2);
    assert(box_of(a1 * 9 + b1) == (a1 / 3) * 3 + b1 / 3);
    assert(box_of(a2 * 9 + b2) == (a2 / 3) * 3 + b2 / 3);
}

proof fn lemma_all_committed(cells: Seq<Cell>, n: int)
    requires
        0 <= n <= cells.len(),
        unsolved_positions(board_model(cells), n).len() == 0,
    ensures
        forall|p: int| 0 <= p < n ==> (#[trigger] cells[p]).value is Some,
    decreases n,
{
    if n > 0 {
        lemma_all_committed(cells, n - 1);
    }
}

/// Nine different digits are all nine digits.
proof fn lemma_nine_digits(s: Seq<u8>, d: u8)
    requires
        s.len() == 9,
        s.no_duplicates(),
        forall|k: int| 0 <= k < 9 ==> is_digit(#[trigger] s[k]),
        is_digit(d),
    ensures
        s.contains(d),
{
    if !s.contains(d) {
        let t = s.map_values(|x: u8| x as int);
        assert(t.no_duplicates());
        t.unique_seq_to_set();
        let rest = set_int_range(1, 10).remove(d as int);
        lemma_int_range(1, 10);
        assert(set_int_range(1, 10).contains(d as int));
        assert(rest.len() == 8);
        assert forall|x: int| t.to_set().contains(x) implies rest.contains(x) by {
            let k = choose|k: int| 0 <= k < t.len() && t[k] == x;
            assert(s[k] != d);
        }
        lemma_len_subset(t.to_set(), rest);
    }
}

/// A board with no open cell and no two entangled positions holding the same
/// value holds each digit exactly once in every row, column and box.
pub proof fn lemma_solved_is_valid(cells: Seq<Cell>)
    requires
        cells.len() == 81,
        forall|p: int| 0 <= p < 81 ==> (#[trigger] cells[p]).wf(),
        unsolved_positions(board_model(cells), 81).len() == 0,
        consistent(cells),
    ensures
        valid_grid(cells),
{
    lemma_all_committed(cells, 81);
    assert forall|kind: int, g: int, d: u8| 0 <= kind < 3 && 0 <= g < 9 && is_digit(d) implies #[trigger] holds_once(
        cells,
        kind,
        g,
        d,
    ) by {
        assert forall|m1: int, m2: int| 0 <= m1 < 9 && 0 <= m2 < 9 && m1 != m2 implies #[trigger] cells[unit_cell(kind, g, m1)].value
            != #[trigger] cells[unit_cell(kind, g, m2)].value by {
            lemma_unit_cells(kind, g, m1, m2);
        }
        let s = Seq::new(
            9,
            |m: int|
                match cells[unit_cell(kind, g, m)].value {
                    Some(v) => v,
                    None => 0u8,
                },
        );
        assert forall|m: int| 0 <= m < 9 implies cells[unit_cell(kind, g, m)].value == Some(#[trigger] s[m]) by {
            lemma_unit_cells(kind, g, m, if m == 0 { 1 } else { 0 });
        }
        assert forall|k: int| 0 <= k < 9 implies is_digit(#[trigger] s[k]) by {
            assert(cells[unit_cell(kind, g, k)].value == Some(s[k]));
            lemma_unit_cells(kind, g, k, if k == 0 { 1 } else { 0 });
            assert(cells[unit_cell(kind, g, k)].wf());
        }
        assert(s.no_duplicates()) by {
            assert forall|x: int, y: int| 0 <= x < s.len() && 0 <= y < s.len() && x != y implies s[x] != s[y] by {
                assert(cells[unit_cell(kind, g, x)].value != cells[unit_cell(kind, g, y)].value);
                assert(cells[unit_cell(kind, g, x)].value == Some(s[x]));
                assert(cells[unit_cell(kind, g, y)].value == Some(s[y]));
            }
        }
        lemma_nine_digits(s, d);
        let m = choose|m: int| 0 <= m < 9 && s[m] == d;
        assert(cells[unit_cell(kind, g, m)].value == Some(d));
    }
}

/// The 81 cells of the grid.
#[derive(Clone, Debug)]
pub struct Board {
    cells: [Cell; 81],
}

impl View for Board {
    type V = Seq<Cell>;

    closed spec fn view(&self) -> Seq<Cell> {
        self.cells@
    }
}

impl Board {
    /// Every cell is well formed and stands at its own position.
    pub open spec fn wf(&self) -> bool {
        &&& self@.len() == 81
        &&& forall|k: int| 0 <= k < 81 ==> (#[trigger] self@[k]).wf() && self@[k].index.value == k
    }

    pub fn new(cells: [Cell; 81]) -> (r: Board)
        ensures
            r@ == cells@,
    {
        Board { cells }
    }

    /// Whether the board is well formed, as the solving steps require.
    pub fn is_well_formed(&self) -> (r: bool)
        ensures
            r == self.wf(),
    {
        let mut k: usize = 0;
        while k < 81
            invariant
                k <= 81,
                self@.len() == 81,
                forall|m: int| 0 <= m < k ==> (#[trigger] self@[m]).wf() && self@[m].index.value == m,
            decreases 81 - k,
        {
            let c = &self.cells[k];
            if c.index.value as usize != k || !c.is_well_formed() {
                return false;
            }
            k = k + 1;
        }
        true
    }

    pub fn get_cell(&self, index: &BoardIndex) -> (r: &Cell)
        requires
            index.wf(),
        ensures
            *r == self@[index.value as int],
    {
        &self.cells[index.value as usize]
    }

    pub fn get_cell_mut(&mut self, index: &BoardIndex) -> (r: &mut Cell)
        requires
            index.wf(),
        ensures
            *r == old(self)@[index.value as int],
            final(self)@ == old(self)@.update(index.value as int, *final(r)),
    {
        &mut self.cells[index.value as usize]
    }

    /// The positions whose cells hold no value yet, ascending.
    pub fn unsolved_indexes(&self) -> (r: Vec<BoardIndex>)
        ensures
            r@.len() == unsolved_positions(board_model(self@), 81).len(),
            forall|k: int| 0 <= k < r.len() ==> r[k].value == unsolved_positions(board_model(self@), 81)[k],
            forall|k: int| 0 <= k < r.len() ==> (#[trigger] r[k]).wf(),
    {
        let mut r: Vec<BoardIndex> = Vec::new();
        let mut k: u8 = 0;
        while k < 81
            invariant
                k <= 81,
                self@.len() == 81,
                r@.len() == unsolved_positions(board_model(self@), k as int).len(),
                forall|m: int| 0 <= m < r.len() ==> r[m].value == unsolved_positions(board_model(self@), k as int)[m],
                forall|m: int| 0 <= m < r.len() ==> (#[trigger] r[m]).wf() && r[m].value < k,
            decreases 81 - k,
        {
            if self.cells[k as usize].value.is_none() {
                r.push(BoardIndex { value: k });
            }
            k = k + 1;
        }
        r
    }

    /// One elimination step at `index`. A committed cell is left alone. Otherwise
    /// its candidates lose every value held by an entangled position; if none
    /// is left, that is a contradiction and nothing changes; if one is left,
    /// the cell takes it and it leaves the candidates of every entangled
    /// position; else the cell keeps what is left.
    pub fn collapse_cell(&mut self, index: &BoardIndex) -> (r: Result<(), SolveError>)
        requires
            old(self).wf(),
            index.wf(),
        ensures
            final(self).wf(),
            old(self)@[index.value as int].value is Some ==> r is Ok && final(self)@ == old(self)@,
            old(self)@[index.value as int].value is None ==> {
                let i = index.value as int;
                let rem = remaining(board_model(old(self)@), i);
                &&& r is Err <==> rem.len() == 0
                &&& rem.len() == 0 ==> final(self)@ == old(self)@
                &&& rem.len() == 1 ==> committed(old(self)@, final(self)@, i, rem[0])
                &&& rem.len() > 1 ==> narrowed(old(self)@, final(self)@, i, rem)
            },
            r matches Err(SolveError::EliminationContradiction { index: at, candidates, taken: held }) ==> {
                &&& at == *index
                &&& candidates@ == old(self)@[index.value as int].options@
                &&& forall|d: u8| held@.contains(d) <==> taken(board_model(old(self)@), index.value as int, d)
            },
            r is Err <==> collapse_step(board_model(old(self)@), index.value as int) is None,
            r is Ok ==> collapse_step(board_model(old(self)@), index.value as int) == Some(board_model(final(self)@)),
            forall|p: int|
                0 <= p < 81 ==> (#[trigger] final(self)@[p].options@).to_set().subset_of(
                    old(self)@[p].options@.to_set(),
                ),
            forall|p: int|
                0 <= p < 81 && old(self)@[p].value is Some ==> (#[trigger] final(self)@[p]).value
                    == old(self)@[p].value,
            consistent(old(self)@) ==> consistent(final(self)@),
    {
        let i = index.value as usize;
        if self.cells[i].value.is_some() {
            return Ok(());
        }
        let ghost b = self@;
        let neighbors = index.entangled_indexes();
        let taken_values = self.committed_values(&neighbors);
        proof {
            assert forall|d: u8| taken_values@.contains(d) == taken(board_model(b), i as int, d) by {
                if taken_values@.contains(d) {
                    let m = choose|m: int| 0 <= m < neighbors.len() && #[trigger] b[neighbors[m].value as int].value == Some(d);
                    let j = neighbors[m].value as int;
                    assert(entangled_with(i as int, j));
                    assert(board_model(b)[j].value == Some(d));
                }
                if taken(board_model(b), i as int, d) {
                    let j = choose|j: int| entangled_with(i as int, j) && #[trigger] board_model(b)[j].value == Some(d);
                    assert(b[j].value == Some(d));
                    let m = choose|m: int| 0 <= m < neighbors.len() && neighbors[m].value == j;
                    assert(b[neighbors[m].value as int].value == Some(d));
                }
            }
        }
        let rem = difference(&self.cells[i].options, &taken_values);
        proof {
            let keep = |x: u8| !taken_values@.contains(x);
            let free = |d: u8| !taken(board_model(b), i as int, d);
            assert(keep =~= free);
            assert(rem@ == remaining(board_model(b), i as int));
            lemma_without_no_duplicates(b[i as int].options@, taken_values@);
            assert forall|d: u8| rem@.contains(d) implies b[i as int].options@.contains(d) && !taken(board_model(b), i as int, d) by {
                lemma_without_contains(b[i as int].options@, taken_values@, d);
            }
        }
        if rem.len() == 0 {
            let mut candidates: Vec<u8> = Vec::new();
            append(&mut candidates, &self.cells[i].options);
            return Err(SolveError::EliminationContradiction { index: *index, candidates, taken: taken_values });
        }
        if rem.len() == 1 {
            let d = rem[0];
            assert(rem@.contains(d));
            self.cells[i].value = Some(d);
            self.cells[i].options = Vec::new();
            let single: Vec<u8> = vec![d];
            let ghost mid = self@;
            let n = neighbors.len();
            let mut k: usize = 0;
            while k < n
                invariant
                    n == neighbors.len(),
                    n == 20,
                    k <= n,
                    i < 81,
                    single@ == seq![d],
                    lists_entangled(i as int, neighbors@),
                    forall|m: int| 0 <= m < neighbors.len() ==> (#[trigger] neighbors[m]).wf(),
                    self@.len() == 81,
                    mid.len() == 81,
                    forall|p: int|
                        #![trigger self@[p]]
                        0 <= p < 81 ==> if entangled_with(i as int, p) && (k < n ==> p < neighbors[k as int].value) {
                            same_but_options(self@[p], mid[p]) && self@[p].options@ == without(mid[p].options@, seq![d])
                        } else {
                            self@[p] == mid[p]
                        },
                decreases n - k,
            {
                let q = neighbors[k].value as usize;
                let ghost before = self@;
                subtract(&mut self.cells[q].options, &single);
                proof {
                    assert forall|p: int|
                        #![trigger self@[p]]
                        0 <= p < 81 implies if entangled_with(i as int, p) && (k + 1 < n ==> p < neighbors[k + 1].value) {
                            same_but_options(self@[p], mid[p]) && self@[p].options@ == without(mid[p].options@, seq![d])
                        } else {
                            self@[p] == mid[p]
                        } by {
                        if p != q as int && entangled_with(i as int, p) && neighbors[k as int].value <= p
                            && (k + 1 < n ==> p < neighbors[k + 1].value) {
                            let m = choose|m: int| 0 <= m < neighbors.len() && neighbors[m].value == p;
                            assert(m != k as int);
                            if m < k {
                                assert(neighbors[m].value < neighbors[k as int].value);
                            } else {
                                assert(neighbors[k + 1].value <= neighbors[m].value);
                            }
                        }
                    }
                }
                k = k + 1;
            }
            proof {
                assert forall|p: int| 0 <= p < 81 && entangled_with(i as int, p) implies (#[trigger] self@[p]).wf()
                    && self@[p].options@.to_set().subset_of(b[p].options@.to_set()) by {
                    lemma_narrowed_cell(b[p], self@[p], seq![d]);
                }
                let s = collapse_step(board_model(b), i as int)->Some_0;
                assert forall|p: int| 0 <= p < 81 implies #[trigger] s[p] == board_model(self@)[p] by {
                    if p != i as int && entangled_with(i as int, p) {
                        assert(same_but_options(self@[p], b[p]));
                    }
                }
                assert(s =~= board_model(self@));
            }
        } else {
            self.cells[i].options = rem;
            proof {
                lemma_narrowed_cell(b[i as int], self@[i as int], taken_values@);
                assert(board_model(b).update(i as int, CellModel { options: rem@, ..board_model(b)[i as int] })
                    =~= board_model(self@));
            }
        }
        Ok(())
    }

    /// Runs up to `max_passes` passes of `collapse_cell` over the unsolved
    /// positions, ascending, and stops early once none is left. Gives whether
    /// the board ended solved, or the first contradiction met. The board it
    /// leaves is exactly what `run` gives.
    pub fn solve(&mut self, max_passes: usize) -> (r: Result<bool, SolveError>)
        requires
            old(self).wf(),
        ensures
            final(self).wf(),
            r is Err <==> run(board_model(old(self)@), max_passes as nat) is None,
            r is Ok ==> run(board_model(old(self)@), max_passes as nat) == Some(board_model(final(self)@)),
            r matches Ok(solved) ==> (solved <==> unsolved_positions(board_model(final(self)@), 81).len() == 0),
            r matches Err(SolveError::EliminationContradiction { index: at, .. }) ==> {
                &&& at.wf()
                &&& final(self)@[at.value as int].value is None
                &&& remaining(board_model(final(self)@), at.value as int).len() == 0
            },
            forall|p: int|
                0 <= p < 81 ==> (#[trigger] final(self)@[p].options@).to_set().subset_of(
                    old(self)@[p].options@.to_set(),
                ),
            forall|p: int|
                0 <= p < 81 && old(self)@[p].value is Some ==> (#[trigger] final(self)@[p]).value
                    == old(self)@[p].value,
            consistent(old(self)@) ==> consistent(final(self)@),
            r matches Ok(true) && consistent(old(self)@) ==> valid_grid(final(self)@),
    {
        let mut pass: usize = 0;
        while pass < max_passes
            invariant
                self.wf(),
                forall|p: int|
                    0 <= p < 81 ==> (#[trigger] self@[p].options@).to_set().subset_of(
                        old(self)@[p].options@.to_set(),
                    ),
                forall|p: int|
                    0 <= p < 81 && old(self)@[p].value is Some ==> (#[trigger] self@[p]).value
                        == old(self)@[p].value,
                consistent(old(self)@) ==> consistent(self@),
                pass <= max_passes,
                run(board_model(self@), (max_passes - pass) as nat) == run(board_model(old(self)@), max_passes as nat),
            decreases max_passes - pass,
        {
            let ghost start = board_model(self@);
            let ghost todo = unsolved_positions(start, 81);
            let unsolved = self.unsolved_indexes();
            if unsolved.len() == 0 {
                proof {
                    if consistent(old(self)@) {
                        lemma_solved_is_valid(self@);
                    }
                }
                return Ok(true);
            }
            let mut k: usize = 0;
            assert(todo.subrange(0, todo.len() as int) =~= todo);
            while k < unsolved.len()
                invariant
                    self.wf(),
                    forall|m: int| 0 <= m < unsolved.len() ==> (#[trigger] unsolved[m]).wf(),
                    forall|p: int|
                        0 <= p < 81 ==> (#[trigger] self@[p].options@).to_set().subset_of(
                            old(self)@[p].options@.to_set(),
                        ),
                    forall|p: int|
                        0 <= p < 81 && old(self)@[p].value is Some ==> (#[trigger] self@[p]).value
                            == old(self)@[p].value,
                    consistent(old(self)@) ==> consistent(self@),
                    k <= unsolved.len(),
                    unsolved.len() == todo.len(),
                    forall|m: int| 0 <= m < unsolved.len() ==> (#[trigger] unsolved[m]).value == todo[m],
                    pass_over(board_model(self@), todo.subrange(k as int, todo.len() as int)) == pass_over(start, todo),
                    todo.len() > 0,
                    pass < max_passes,
                    run(start, (max_passes - pass) as nat) == run(board_model(old(self)@), max_passes as nat),
                    todo == unsolved_positions(start, 81),
                decreases unsolved.len() - k,
            {
                let ghost before = self@;
                let ghost rest = todo.subrange(k as int, todo.len() as int);
                assert(rest[0] == todo[k as int]);
                assert(rest.subrange(1, rest.len() as int) =~= todo.subrange(k + 1, todo.len() as int));
                match self.collapse_cell(&unsolved[k]) {
                    Ok(()) => {},
                    Err(e) => {
                        return Err(e);
                    },
                }
                proof {
                    assert forall|p: int| 0 <= p < 81 implies (#[trigger] self@[p].options@).to_set().subset_of(
                        old(self)@[p].options@.to_set(),
                    ) by {
                        assert(self@[p].options@.to_set().subset_of(before[p].options@.to_set()));
                        assert(before[p].options@.to_set().subset_of(old(self)@[p].options@.to_set()));
                    }
                    assert forall|p: int| 0 <= p < 81 && old(self)@[p].value is Some implies (#[trigger] self@[p]).value
                        == old(self)@[p].value by {
                        assert(before[p].value == old(self)@[p].value);
                    }
                }
                k = k + 1;
            }
            assert(todo.subrange(todo.len() as int, todo.len() as int) =~= Seq::<int>::empty());
            pass = pass + 1;
        }
        let unsolved = self.unsolved_indexes();
        proof {
            if unsolved.len() == 0 && consistent(old(self)@) {
                lemma_solved_is_valid(self@);
            }
        }
        Ok(unsolved.len() == 0)
    }

    /// The values held at `indexes`, in their order, skipping open cells.
    fn committed_values(&self, indexes: &Vec<BoardIndex>) -> (r: Vec<u8>)
        requires
            forall|k: int| 0 <= k < indexes.len() ==> (#[trigger] indexes[k]).wf(),
        ensures
            r@ == held_values(self@, indexes@),
            forall|d: u8|
                r@.contains(d) <==> exists|m: int|
                    0 <= m < indexes.len() && #[trigger] self@[indexes[m].value as int].value == Some(d),
    {
        let mut r: Vec<u8> = Vec::new();
        let mut k: usize = 0;
        while k < indexes.len()
            invariant
                k <= indexes.len(),
                forall|m: int| 0 <= m < indexes.len() ==> (#[trigger] indexes[m]).wf(),
                r@ == held_values(self@, indexes@.take(k as int)),
                forall|d: u8|
                    r@.contains(d) <==> exists|m: int|
                        0 <= m < k && #[trigger] self@[indexes[m].value as int].value == Some(d),
            decreases indexes.len() - k,
        {
            let ghost before = r@;
            assert(indexes@.take(k + 1).drop_last() =~= indexes@.take(k as int));
            match self.cells[indexes[k].value as usize].value {
                Some(d) => {
                    r.push(d);
                    assert(r@[r.len() - 1] == d);
                },
                None => {},
            }
            proof {
                assert forall|d: u8| r@.contains(d) <==> exists|m: int|
                    0 <= m < k + 1 && #[trigger] self@[indexes[m].value as int].value == Some(d) by {
                    if exists|m: int| 0 <= m < k + 1 && #[trigger] self@[indexes[m].value as int].value == Some(d) {
                        let m = choose|m: int| 0 <= m < k + 1 && #[trigger] self@[indexes[m].value as int].value == Some(d);
                        if m < k {
                            assert(before.contains(d));
                            let x = choose|x: int| 0 <= x < before.len() && before[x] == d;
                            assert(r@[x] == d);
                        } else {
                            assert(r@[r.len() - 1] == d);
                        }
                    }
                    if r@.contains(d) {
                        let x = choose|x: int| 0 <= x < r.len() && r@[x] == d;
                        if x < before.len() {
                            assert(before[x] == d);
                            assert(before.contains(d));
                        } else {
                            assert(self@[indexes[k as int].value as int].value == Some(d));
                        }
                    }
                }
            }
            k = k + 1;
        }
        assert(indexes@.take(indexes.len() as int) =~= indexes@);
        r
    }
}

} // verus!
