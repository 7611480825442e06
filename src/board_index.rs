//! Positions on the 9x9 grid and the positions that constrain them.

use vstd::prelude::*;

verus! {

/// Row (0..=8) of the grid index `i`.
pub open spec fn row_of(i: int) -> int {
    i / 9
}

/// Column (0..=8) of the grid index `i`.
pub open spec fn col_of(i: int) -> int {
    i % 9
}

/// Box (0..=8, left to right then top to bottom) of the grid index `i`.
pub open spec fn box_of(i: int) -> int {
    (row_of(i) / 3) * 3 + col_of(i) / 3
}

/// `i` names one of the 81 positions.
pub open spec fn is_position(i: int) -> bool {
    0 <= i < 81
}

/// The 8 other positions of the row of `i`, ascending.
pub open spec fn row_mates(i: int) -> Seq<int> {
    Seq::new(8, |k: int| row_of(i) * 9 + if k < col_of(i) { k } else { k + 1 })
}

/// The 8 other positions of the column of `i`, ascending.
pub open spec fn col_mates(i: int) -> Seq<int> {
    Seq::new(8, |k: int| col_of(i) + 9 * if k < row_of(i) { k } else { k + 1 })
}

/// The `m`-th position (0..=8) of the box of `i`, in reading order.
pub open spec fn box_cell(i: int, m: int) -> int {
    ((box_of(i) / 3) * 3 + m / 3) * 9 + (box_of(i) % 3) * 3 + m % 3
}

/// Where `i` itself stands among the positions of its box.
pub open spec fn box_slot(i: int) -> int {
    (row_of(i) % 3) * 3 + col_of(i) % 3
}

/// The 8 other positions of the box of `i`, ascending.
pub open spec fn box_mates(i: int) -> Seq<int> {
    Seq::new(8, |k: int| box_cell(i, if k < box_slot(i) { k } else { k + 1 }))
}

/// `j` is a different position sharing a row, a column or a box with `i`.
pub open spec fn entangled_with(i: int, j: int) -> bool {
    &&& is_position(j)
    &&& j != i
    &&& (row_of(j) == row_of(i) || col_of(j) == col_of(i) || box_of(j) == box_of(i))
}

/// `v` lists, ascending and each once, exactly the positions entangled with `i`.
pub open spec fn lists_entangled(i: int, v: Seq<BoardIndex>) -> bool {
    &&& forall|k: int| 0 <= k < v.len() ==> entangled_with(i, (#[trigger] v[k]).value as int)
    &&& forall|a: int, b: int| 0 <= a < b < v.len() ==> v[a].value < v[b].value
    &&& forall|j: int| #[trigger] entangled_with(i, j) ==> exists|k: int| 0 <= k < v.len() && v[k].value == j
}

/// Cell `(a, b)` (row, column) differs from cell `(r, c)` and shares its row,
/// its column or its box.
spec fn cell_hit(r: int, c: int, a: int, b: int) -> bool {
    &&& !(a == r && b == c)
    &&& (a == r || b == c || (a / 3 == r / 3 && b / 3 == c / 3))
}

/// How many of the first `n` cells of row `a` are hit from `(r, c)`.
spec fn row_hits(r: int, c: int, a: int, n: int) -> int
    decreases n,
{
    if n <= 0 {
        0
    } else {
        row_hits(r, c, a, n - 1) + if cell_hit(r, c, a, n - 1) { 1int } else { 0int }
    }
}

/// How many cells of the first `m` rows are hit from `(r, c)`.
spec fn grid_hits(r: int, c: int, m: int) -> int
    decreases m,
{
    if m <= 0 {
        0
    } else {
        grid_hits(r, c, m - 1) + row_hits(r, c, m - 1, 9)
    }
}

proof fn lemma_row_hits(r: int, c: int, a: int)
    requires
        0 <= r < 9,
        0 <= c < 9,
        0 <= a < 9,
    ensures
        row_hits(r, c, a, 9) == if a == r { 8int } else if a / 3 == r / 3 { 3int } else { 1int },
{
    reveal_with_fuel(row_hits, 10);
    assert(0 <= c / 3 < 3);
}

proof fn lemma_grid_hits(r: int, c: int)
    requires
        0 <= r < 9,
        0 <= c < 9,
    ensures
        grid_hits(r, c, 9) == 20,
{
    reveal_with_fuel(grid_hits, 10);
    lemma_row_hits(r, c, 0);
    lemma_row_hits(r, c, 1);
    lemma_row_hits(r, c, 2);
    lemma_row_hits(r, c, 3);
    lemma_row_hits(r, c, 4);
    lemma_row_hits(r, c, 5);
    lemma_row_hits(r, c, 6);
    lemma_row_hits(r, c, 7);
    lemma_row_hits(r, c, 8);
}

proof fn lemma_cell_hit(i: int, a: int, b: int)
    requires
        is_position(i),
        0 <= a < 9,
        0 <= b < 9,
    ensures
        entangled_with(i, a * 9 + b) == cell_hit(row_of(i), col_of(i), a, b),
        row_of(a * 9 + b) == a,
        col_of(a * 9 + b) == b,
{
    assert((a * 9 + b) / 9 == a);
    assert((a * 9 + b) % 9 == b);
    assert(i == row_of(i) * 9 + col_of(i));
}

/// The row mates of a position are 8 distinct positions, none of them the
/// position itself, all on its row.
pub proof fn lemma_row_mates(i: int)
    requires
        is_position(i),
    ensures
        row_mates(i).len() == 8,
        forall|a: int, b: int| 0 <= a < b < 8 ==> row_mates(i)[a] != row_mates(i)[b],
        forall|k: int|
            #![trigger row_mates(i)[k]]
            0 <= k < 8 ==> {
                &&& is_position(row_mates(i)[k])
                &&& row_mates(i)[k] != i
                &&& row_of(row_mates(i)[k]) == row_of(i)
            },
{
    assert forall|k: int| 0 <= k < 8 implies {
        &&& is_position(#[trigger] row_mates(i)[k])
        &&& row_mates(i)[k] != i
        &&& row_of(row_mates(i)[k]) == row_of(i)
    } by {
        let m = if k < col_of(i) { k } else { k + 1 };
        lemma_cell_hit(i, row_of(i), m);
        assert(i == row_of(i) * 9 + col_of(i));
    }
}

/// A position is entangled with `i` exactly when it is a row mate, a column
/// mate or a box mate of `i`.
pub proof fn lemma_entangled_is_union(i: int, j: int)
    requires
        is_position(i),
    ensures
        entangled_with(i, j) <==> (row_mates(i).contains(j) || col_mates(i).contains(j)
            || box_mates(i).contains(j)),
{
    let r = row_of(i);
    let c = col_of(i);
    let bx = box_of(i);
    let slot = box_slot(i);
    assert(i == r * 9 + c);
    assert(bx / 3 == r / 3 && bx % 3 == c / 3);
    assert(r == (r / 3) * 3 + r % 3 && c == (c / 3) * 3 + c % 3);
    if row_mates(i).contains(j) {
        let k = choose|k: int| 0 <= k < 8 && row_mates(i)[k] == j;
        lemma_cell_hit(i, r, if k < c { k } else { k + 1 });
    }
    if col_mates(i).contains(j) {
        let k = choose|k: int| 0 <= k < 8 && col_mates(i)[k] == j;
        lemma_cell_hit(i, if k < r { k } else { k + 1 }, c);
    }
    if box_mates(i).contains(j) {
        let k = choose|k: int| 0 <= k < 8 && box_mates(i)[k] == j;
        let m = if k < slot { k } else { k + 1 };
        assert(m == (m / 3) * 3 + m % 3);
        lemma_cell_hit(i, (bx / 3) * 3 + m / 3, (bx % 3) * 3 + m % 3);
    }
    if entangled_with(i, j) {
        let a = row_of(j);
        let b = col_of(j);
        assert(j == a * 9 + b);
        lemma_cell_hit(i, a, b);
        if a == r {
            let k = if b < c { b } else { b - 1 };
            assert(row_mates(i)[k] == j);
        } else if b == c {
            let k = if a < r { a } else { a - 1 };
            assert(col_mates(i)[k] == j);
        } else {
            let m = (a % 3) * 3 + b % 3;
            assert(a == (a / 3) * 3 + a % 3 && b == (b / 3) * 3 + b % 3);
            let k = if m < slot { m } else { m - 1 };
            assert(box_mates(i)[k] == j);
        }
    }
}

/// Anything that stands at one position of the grid.
pub trait BoardLocation {
    /// The position this item stands at.
    spec fn location(&self) -> BoardIndex;

    fn board_index(&self) -> (r: &BoardIndex)
        ensures
            *r == self.location(),
    ;
}

/// A validated position on the grid, identified by its index 0..=80.
#[derive(Clone, Copy, PartialEq, Eq, Structural, PartialOrd, Ord, Debug)]
pub struct BoardIndex {
    pub value: u8,
}

impl BoardIndex {
    pub open spec fn wf(&self) -> bool {
        is_position(self.value as int)
    }

    /// The position with index `value`, or `None` when `value` is past the grid.
    pub fn new(value: u8) -> (r: Option<BoardIndex>)
        ensures
            value <= 80 ==> r == Some(BoardIndex { value }),
            value > 80 ==> r.is_none(),
    {
        if value <= 80 {
            Some(BoardIndex { value })
        } else {
            None
        }
    }

    /// Row of this position.
    pub fn board_row(&self) -> (r: u8)
        requires
            self.wf(),
        ensures
            r == row_of(self.value as int),
            r < 9,
    {
        self.value / 9
    }

    /// Column of this position.
    pub fn board_col(&self) -> (r: u8)
        requires
            self.wf(),
        ensures
            r == col_of(self.value as int),
            r < 9,
    {
        self.value % 9
    }

    /// Box of this position.
    pub fn board_box(&self) -> (r: u8)
        requires
            self.wf(),
        ensures
            r == box_of(self.value as int),
            r < 9,
    {
        let row = self.board_row();
        let col = self.board_col();
        ((row / 3) * 3) + (col / 3)
    }

    /// The position directly above, or `None` on the top row.
    pub fn index_above(&self) -> (r: Option<BoardIndex>)
        requires
            self.wf(),
        ensures
            row_of(self.value as int) == 0 ==> r.is_none(),
            row_of(self.value as int) > 0 ==> r == Some(BoardIndex { value: (self.value - 9) as u8 }),
    {
        let row = self.value / 9;
        if row == 0 {
            return None;
        }
        let col = self.value % 9;
        BoardIndex::new((row - 1) * 9 + col)
    }

    /// The position directly below, or `None` on the bottom row.
    pub fn index_below(&self) -> (r: Option<BoardIndex>)
        requires
            self.wf(),
        ensures
            row_of(self.value as int) == 8 ==> r.is_none(),
            row_of(self.value as int) < 8 ==> r == Some(BoardIndex { value: (self.value + 9) as u8 }),
    {
        let row = self.value / 9;
        if row == 8 {
            return None;
        }
        let col = self.value % 9;
        BoardIndex::new((row + 1) * 9 + col)
    }

    /// The position directly to the left, or `None` in the first column.
    pub fn index_left(&self) -> (r: Option<BoardIndex>)
        requires
            self.wf(),
        ensures
            col_of(self.value as int) == 0 ==> r.is_none(),
            col_of(self.value as int) > 0 ==> r == Some(BoardIndex { value: (self.value - 1) as u8 }),
    {
        let col = self.value % 9;
        if col == 0 {
            return None;
        }
        let row = self.value / 9;
        BoardIndex::new(row * 9 + (col - 1))
    }

    /// The position directly to the right, or `None` in the last column.
    pub fn index_right(&self) -> (r: Option<BoardIndex>)
        requires
            self.wf(),
        ensures
            col_of(self.value as int) == 8 ==> r.is_none(),
            col_of(self.value as int) < 8 ==> r == Some(BoardIndex { value: (self.value + 1) as u8 }),
    {
        let col = self.value % 9;
        if col == 8 {
            return None;
        }
        let row = self.value / 9;
        BoardIndex::new(row * 9 + (col + 1))
    }

    /// The other positions of this row, ascending.
    pub fn entangled_row_indexes(&self) -> (r: Vec<BoardIndex>)
        requires
            self.wf(),
        ensures
            r.len() == 8,
            forall|k: int| 0 <= k < r.len() ==> (#[trigger] r[k]).value == row_mates(self.value as int)[k],
            forall|k: int| 0 <= k < r.len() ==> (#[trigger] r[k]).wf(),
    {
        let index = self.value;
        let start = self.board_row() * 9;
        let mut r: Vec<BoardIndex> = Vec::new();
        let mut j: u8 = start;
        while j < start + 9
            invariant
                start == row_of(index as int) * 9,
                start <= j <= start + 9,
                start <= 72,
                index < 81,
                forall|k: int| 0 <= k < r.len() ==> (#[trigger] r[k]).wf(),
                r.len() == if index < j { j - start - 1 } else { j - start },
                forall|k: int| 0 <= k < r.len() ==> r[k].value == row_mates(index as int)[k],
            decreases start + 9 - j,
        {
            if j != index {
                r.push(BoardIndex { value: j });
            }
            j = j + 1;
        }
        r
    }

    /// The other positions of this column, ascending.
    pub fn entangled_col_indexes(&self) -> (r: Vec<BoardIndex>)
        requires
            self.wf(),
        ensures
            r.len() == 8,
            forall|k: int| 0 <= k < r.len() ==> (#[trigger] r[k]).value == col_mates(self.value as int)[k],
            forall|k: int| 0 <= k < r.len() ==> (#[trigger] r[k]).wf(),
    {
        let index = self.value;
        let row = self.board_row();
        let col = self.board_col();
        let mut r: Vec<BoardIndex> = Vec::new();
        let mut a: u8 = 0;
        while a < 9
            invariant
                a <= 9,
                row == row_of(index as int),
                col == col_of(index as int),
                index < 81,
                r.len() == if row < a { a - 1 } else { a as int },
                forall|k: int| 0 <= k < r.len() ==> r[k].value == col_mates(index as int)[k],
                forall|k: int| 0 <= k < r.len() ==> (#[trigger] r[k]).wf(),
            decreases 9 - a,
        {
            if a != row {
                r.push(BoardIndex { value: col + 9 * a });
            }
            a = a + 1;
        }
        r
    }

    /// The other positions of this 3x3 box, ascending.
    pub fn entangled_box_indexes(&self) -> (r: Vec<BoardIndex>)
        requires
            self.wf(),
        ensures
            r.len() == 8,
            forall|k: int| 0 <= k < r.len() ==> (#[trigger] r[k]).value == box_mates(self.value as int)[k],
            forall|k: int| 0 <= k < r.len() ==> (#[trigger] r[k]).wf(),
    {
        let index = self.value;
        let box_index = self.board_box();
        let row_start = box_index / 3 * 3;
        let col_start = box_index % 3 * 3;
        let slot = (self.board_row() % 3) * 3 + self.board_col() % 3;
        let mut r: Vec<BoardIndex> = Vec::new();
        let mut m: u8 = 0;
        while m < 9
            invariant
                m <= 9,
                index < 81,
                box_index == box_of(index as int),
                row_start == (box_of(index as int) / 3) * 3,
                col_start == (box_of(index as int) % 3) * 3,
                slot == box_slot(index as int),
                r.len() == if slot < m { m - 1 } else { m as int },
                forall|k: int| 0 <= k < r.len() ==> r[k].value == box_mates(index as int)[k],
                forall|k: int| 0 <= k < r.len() ==> (#[trigger] r[k]).wf(),
            decreases 9 - m,
        {
            if m != slot {
                r.push(BoardIndex { value: (row_start + m / 3) * 9 + col_start + m % 3 });
            }
            m = m + 1;
        }
        r
    }

    /// Every position sharing a row, a column or a box with this one,
    /// ascending and without repeats: always 20 of them.
    pub fn entangled_indexes(&self) -> (r: Vec<BoardIndex>)
        requires
            self.wf(),
        ensures
            lists_entangled(self.value as int, r@),
            r.len() == 20,
            forall|k: int| 0 <= k < r.len() ==> (#[trigger] r[k]).wf(),
    {
        let index = self.value;
        let row = self.board_row();
        let col = self.board_col();
        let bx = self.board_box();
        let mut r: Vec<BoardIndex> = Vec::new();
        let mut a: u8 = 0;
        while a < 9
            invariant
                a <= 9,
                index < 81,
                row == row_of(index as int),
                col == col_of(index as int),
                bx == box_of(index as int),
                r.len() == grid_hits(row as int, col as int, a as int),
                forall|k: int| 0 <= k < r.len() ==> (#[trigger] r[k]).value < a * 9,
                forall|k: int| 0 <= k < r.len() ==> entangled_with(index as int, (#[trigger] r[k]).value as int),
                forall|x: int, y: int| 0 <= x < y < r.len() ==> r[x].value < r[y].value,
                forall|j: int| #![trigger entangled_with(index as int, j)]
                    j < a * 9 && entangled_with(index as int, j)
                    ==> exists|k: int| 0 <= k < r.len() && r[k].value == j,
            decreases 9 - a,
        {
            let mut b: u8 = 0;
            while b < 9
                invariant
                    a < 9,
                    b <= 9,
                    index < 81,
                    row == row_of(index as int),
                    col == col_of(index as int),
                    bx == box_of(index as int),
                    r.len() == grid_hits(row as int, col as int, a as int) + row_hits(row as int, col as int, a as int, b as int),
                    forall|k: int| 0 <= k < r.len() ==> (#[trigger] r[k]).value < a * 9 + b,
                    forall|k: int| 0 <= k < r.len() ==> entangled_with(index as int, (#[trigger] r[k]).value as int),
                    forall|x: int, y: int| 0 <= x < y < r.len() ==> r[x].value < r[y].value,
                    forall|j: int| #![trigger entangled_with(index as int, j)]
                        j < a * 9 + b && entangled_with(index as int, j)
                        ==> exists|k: int| 0 <= k < r.len() && r[k].value == j,
                decreases 9 - b,
            {
                let j: u8 = a * 9 + b;
                let here = BoardIndex { value: j };
                proof {
                    lemma_cell_hit(index as int, a as int, b as int);
                }
                let hit = j != index && (here.board_row() == row || here.board_col() == col
                    || here.board_box() == bx);
                assert(hit == entangled_with(index as int, j as int));
                let ghost before = r@;
                if hit {
                    r.push(here);
                    assert(r[r.len() - 1].value == j);
                    assert forall|k: int| 0 <= k < before.len() implies r[k] == before[k] by {}
                }
                b = b + 1;
            }
            a = a + 1;
        }
        proof {
            lemma_grid_hits(row as int, col as int);
        }
        r
    }
}

impl BoardLocation for BoardIndex {
    open spec fn location(&self) -> BoardIndex {
        *self
    }

    fn board_index(&self) -> (r: &BoardIndex) {
        self
    }
}

} // verus!
