//! One square of the grid: a committed digit or the digits still possible.

use vstd::prelude::*;

use crate::board_index::BoardIndex;
use crate::board_index::BoardLocation;
use crate::diff::Diff;
use crate::diff::DiffBuilder;
use crate::diff::PatchDiff;
use crate::diff::PatchFragment;
use crate::diff::applied_all;
use crate::diff::lemma_diff_round_trip;
use crate::diff::observed_all;
use crate::diff::reverted_all;

verus! {

broadcast use vstd::seq_lib::group_filter_ensures, vstd::seq_lib::group_seq_properties;

/// `a` without every element that `b` holds, order kept.
pub open spec fn without(a: Seq<u8>, b: Seq<u8>) -> Seq<u8> {
    a.filter(|x: u8| !b.contains(x))
}

/// The digits 1 to 9, ascending.
pub open spec fn all_digits() -> Seq<u8> {
    seq![1u8, 2u8, 3u8, 4u8, 5u8, 6u8, 7u8, 8u8, 9u8]
}

/// `d` is a digit a cell may hold.
pub open spec fn is_digit(d: u8) -> bool {
    1 <= d <= 9
}

/// What a cell is, with its candidates taken as a set.
pub struct CellView {
    pub index: BoardIndex,
    pub initial: bool,
    pub value: Option<u8>,
    pub candidates: Set<u8>,
}

/// A cell as plain values, its candidates in order.
pub struct CellModel {
    pub index: BoardIndex,
    pub initial: bool,
    pub value: Option<u8>,
    pub options: Seq<u8>,
}

/// One square of the grid.
#[derive(Clone, Debug)]
pub struct Cell {
    pub index: BoardIndex,
    /// Given in the puzzle, as opposed to found by solving.
    pub initial: bool,
    pub value: Option<u8>,
    /// The digits still possible while no value is committed.
    pub options: Vec<u8>,
}

impl View for Cell {
    type V = CellView;

    open spec fn view(&self) -> CellView {
        CellView {
            index: self.index,
            initial: self.initial,
            value: self.value,
            candidates: self.options@.to_set(),
        }
    }
}

impl Cell {
    /// This cell as plain values.
    pub open spec fn model(&self) -> CellModel {
        CellModel { index: self.index, initial: self.initial, value: self.value, options: self.options@ }
    }

    /// A committed cell holds a digit and no candidates; an open one holds
    /// distinct digits as candidates.
    pub open spec fn wf(&self) -> bool {
        &&& self.index.wf()
        &&& match self.value {
            Some(d) => is_digit(d) && self.options@.len() == 0,
            None => {
                &&& self.options@.no_duplicates()
                &&& forall|k: int| 0 <= k < self.options@.len() ==> is_digit(#[trigger] self.options@[k])
            },
        }
    }

    /// Whether the cell is well formed.
    pub fn is_well_formed(&self) -> (r: bool)
        ensures
            r == self.wf(),
    {
        if self.index.value > 80 {
            return false;
        }
        match self.value {
            Some(d) => 1 <= d && d <= 9 && self.options.len() == 0,
            None => {
                let n = self.options.len();
                let mut k: usize = 0;
                while k < n
                    invariant
                        n == self.options@.len(),
                        k <= n,
                        forall|m: int| 0 <= m < k ==> is_digit(#[trigger] self.options@[m]),
                        forall|a: int, b: int| 0 <= a < b < n && a < k ==> self.options@[a] != self.options@[b],
                    decreases n - k,
                {
                    let x = self.options[k];
                    if x < 1 || x > 9 {
                        return false;
                    }
                    let mut m: usize = k + 1;
                    while m < n
                        invariant
                            n == self.options@.len(),
                            k < m <= n,
                            x == self.options@[k as int],
                            forall|b: int| k < b < m ==> self.options@[k as int] != self.options@[b],
                        decreases n - m,
                    {
                        if self.options[m] == x {
                            return false;
                        }
                        m = m + 1;
                    }
                    k = k + 1;
                }
                true
            },
        }
    }

    /// The cell at `index` for the puzzle digit `input`, 0 meaning blank.
    pub fn new(index: BoardIndex, input: u8, is_initial: bool) -> (r: Cell)
        requires
            index.wf(),
            input <= 9,
        ensures
            r.index == index,
            r.initial == is_initial,
            r.value == if input == 0 { None } else { Some(input) },
            r.options@ == if input == 0 { all_digits() } else { Seq::<u8>::empty() },
            r.wf(),
    {
        let value = if input == 0 { None } else { Some(input) };
        let options: Vec<u8> = if input == 0 {
            vec![1, 2, 3, 4, 5, 6, 7, 8, 9]
        } else {
            Vec::new()
        };
        proof {
            if input == 0 {
                assert(options@ =~= all_digits());
            }
        }
        Cell { index, initial: is_initial, value, options }
    }
}

impl Cell {
    /// A builder for diffs of cells.
    pub fn diff_builder() -> (r: DiffBuilder<CellFragment>)
        ensures
            r@ == Seq::<CellFragment>::empty(),
    {
        Diff::builder()
    }
}

impl BoardLocation for Cell {
    open spec fn location(&self) -> BoardIndex {
        self.index
    }

    fn board_index(&self) -> (r: &BoardIndex) {
        &self.index
    }
}

/// Whether `v` holds `x`.
pub(crate) fn holds(v: &Vec<u8>, x: u8) -> (r: bool)
    ensures
        r == v@.contains(x),
{
    let mut k: usize = 0;
    while k < v.len()
        invariant
            k <= v.len(),
            forall|m: int| 0 <= m < k ==> v@[m] != x,
        decreases v.len() - k,
    {
        if v[k] == x {
            return true;
        }
        k = k + 1;
    }
    false
}

/// The elements of `a` that `b` does not hold, order kept.
pub(crate) fn difference(a: &Vec<u8>, b: &Vec<u8>) -> (r: Vec<u8>)
    ensures
        r@ == without(a@, b@),
{
    let mut kept: Vec<u8> = Vec::new();
    let mut k: usize = 0;
    while k < a.len()
        invariant
            k <= a.len(),
            kept@ == without(a@.take(k as int), b@),
        decreases a.len() - k,
    {
        let x = a[k];
        if !holds(b, x) {
            kept.push(x);
        }
        proof {
            reveal(Seq::filter);
            assert(a@.take(k + 1).drop_last() =~= a@.take(k as int));
        }
        k = k + 1;
    }
    assert(a@.take(a.len() as int) =~= a@);
    kept
}

/// Removes from `a` every element that `b` holds, keeping the order of the rest.
pub(crate) fn subtract(a: &mut Vec<u8>, b: &Vec<u8>)
    ensures
        final(a)@ == without(old(a)@, b@),
{
    *a = difference(a, b);
}

/// Removing elements keeps a list free of repeats.
pub(crate) proof fn lemma_without_no_duplicates(a: Seq<u8>, b: Seq<u8>)
    requires
        a.no_duplicates(),
    ensures
        without(a, b).no_duplicates(),
    decreases a.len(),
{
    reveal(Seq::filter);
    if a.len() > 0 {
        let rest = a.drop_last();
        assert(rest.no_duplicates());
        lemma_without_no_duplicates(rest, b);
        if without(rest, b).contains(a.last()) {
            rest.lemma_filter_contains_rev(|x: u8| !b.contains(x), a.last());
            let k = choose|k: int| 0 <= k < rest.len() && rest[k] == a.last();
            assert(a[k] == a[a.len() - 1]);
        }
    }
}

/// Every element left after removing was there before.
pub(crate) proof fn lemma_without_contains(a: Seq<u8>, b: Seq<u8>, x: u8)
    ensures
        without(a, b).contains(x) <==> (a.contains(x) && !b.contains(x)),
{
    lemma_without_set(a, b);
    assert(without(a, b).to_set().contains(x) == without(a, b).contains(x));
    assert(a.to_set().contains(x) == a.contains(x));
    assert(b.to_set().contains(x) == b.contains(x));
}

/// Appends the elements of `b` to `a`.
pub(crate) fn append(a: &mut Vec<u8>, b: &Vec<u8>)
    ensures
        final(a)@ == old(a)@ + b@,
{
    let ghost start = a@;
    let mut k: usize = 0;
    while k < b.len()
        invariant
            k <= b.len(),
            a@ == start + b@.take(k as int),
        decreases b.len() - k,
    {
        a.push(b[k]);
        assert(b@.take(k + 1) =~= b@.take(k as int).push(b@[k as int]));
        k = k + 1;
    }
    assert(b@.take(b.len() as int) =~= b@);
}

/// What a fragment records: a value change `(before, after)`, and a change
/// of candidates `(removed, added)`, each possibly absent.
pub struct CellFragmentView {
    pub value: Option<(Option<u8>, Option<u8>)>,
    pub options: Option<(Seq<u8>, Seq<u8>)>,
}

/// One recorded change to a cell.
#[derive(Debug)]
pub struct CellFragment {
    value: Option<[Option<u8>; 2]>,
    options: Option<[Vec<u8>; 2]>,
}

impl View for CellFragment {
    type V = CellFragmentView;

    closed spec fn view(&self) -> CellFragmentView {
        CellFragmentView {
            value: match self.value {
                Some(pair) => Some((pair@[0], pair@[1])),
                None => None,
            },
            options: match self.options {
                Some(pair) => Some((pair@[0]@, pair@[1]@)),
                None => None,
            },
        }
    }
}

impl CellFragment {
    /// A fragment from a `[before, after]` value pair and a `[removed, added]`
    /// candidates pair.
    pub fn new(value: Option<[Option<u8>; 2]>, options: Option<[Vec<u8>; 2]>) -> (r: CellFragment)
        ensures
            r@.value == match value {
                Some(pair) => Some((pair@[0], pair@[1])),
                None => None,
            },
            r@.options == match options {
                Some(pair) => Some((pair@[0]@, pair@[1]@)),
                None => None::<(Seq<u8>, Seq<u8>)>,
            },
    {
        CellFragment { value, options }
    }

    pub fn builder() -> (r: CellFragmentBuilder)
        ensures
            r@.value.is_none(),
            r@.options.is_none(),
    {
        CellFragmentBuilder::new()
    }
}

/// Builds a `CellFragment` one part at a time.
pub struct CellFragmentBuilder {
    value: Option<[Option<u8>; 2]>,
    removed: Option<Vec<u8>>,
    added: Option<Vec<u8>>,
}

impl View for CellFragmentBuilder {
    type V = CellFragmentView;

    /// The fragment that `finalize` would give now.
    closed spec fn view(&self) -> CellFragmentView {
        CellFragmentView {
            value: match self.value {
                Some(pair) => Some((pair@[0], pair@[1])),
                None => None,
            },
            options: if self.removed.is_none() && self.added.is_none() {
                None
            } else {
                Some((
                    match self.removed {
                        Some(v) => v@,
                        None => Seq::empty(),
                    },
                    match self.added {
                        Some(v) => v@,
                        None => Seq::empty(),
                    },
                ))
            },
        }
    }
}

impl CellFragmentBuilder {
    pub fn new() -> (r: CellFragmentBuilder)
        ensures
            r@.value.is_none(),
            r@.options.is_none(),
    {
        CellFragmentBuilder { value: None, removed: None, added: None }
    }

    /// Records that the value went from `before` to `after`.
    pub fn changed_value(&mut self, before: Option<u8>, after: Option<u8>) -> (r: &mut CellFragmentBuilder)
        ensures
            (*r)@.value == Some((before, after)),
            (*r)@.options == old(self)@.options,
            *final(self) == *final(r),
    {
        self.value = Some([before, after]);
        self
    }

    /// Records the candidates that were taken away.
    pub fn removed_options(&mut self, removed: Vec<u8>) -> (r: &mut CellFragmentBuilder)
        ensures
            (*r)@.value == old(self)@.value,
            (*r)@.options == Some((
                removed@,
                match old(self)@.options {
                    Some(pair) => pair.1,
                    None => Seq::empty(),
                },
            )),
            *final(self) == *final(r),
    {
        self.removed = Some(removed);
        self
    }

    /// Records the candidates that were given back.
    pub fn added_options(&mut self, added: Vec<u8>) -> (r: &mut CellFragmentBuilder)
        ensures
            (*r)@.value == old(self)@.value,
            (*r)@.options == Some((
                match old(self)@.options {
                    Some(pair) => pair.0,
                    None => Seq::empty(),
                },
                added@,
            )),
            *final(self) == *final(r),
    {
        self.added = Some(added);
        self
    }

    /// Hands out the fragment built so far and starts over empty.
    pub fn finalize(&mut self) -> (r: CellFragment)
        ensures
            r@ == old(self)@,
            final(self)@.value.is_none(),
            final(self)@.options.is_none(),
    {
        let value = self.value.take();
        let removed = self.removed.take();
        let added = self.added.take();
        let options = if removed.is_none() && added.is_none() {
            None
        } else {
            let r = match removed {
                Some(v) => v,
                None => Vec::new(),
            };
            let a = match added {
                Some(v) => v,
                None => Vec::new(),
            };
            Some([r, a])
        };
        CellFragment::new(value, options)
    }
}

/// The candidate list after applying the candidates change of `f` to `o`.
pub open spec fn options_applied(o: Seq<u8>, f: CellFragmentView) -> Seq<u8> {
    match f.options {
        Some((removed, added)) => without(o, removed) + added,
        None => o,
    }
}

/// The candidate list after reverting the candidates change of `f` from `o`.
pub open spec fn options_reverted(o: Seq<u8>, f: CellFragmentView) -> Seq<u8> {
    match f.options {
        Some((removed, added)) => without(o + removed, added),
        None => o,
    }
}

proof fn lemma_without_set(a: Seq<u8>, b: Seq<u8>)
    ensures
        without(a, b).to_set() == a.to_set().difference(b.to_set()),
{
    assert forall|x: u8| #[trigger] without(a, b).contains(x) implies a.contains(x) && !b.contains(x) by {
        a.lemma_filter_contains_rev(|y: u8| !b.contains(y), x);
        let k = choose|k: int| 0 <= k < without(a, b).len() && without(a, b)[k] == x;
    }
    assert forall|x: u8| a.contains(x) && !b.contains(x) implies #[trigger] without(a, b).contains(x) by {
        let k = choose|k: int| 0 <= k < a.len() && a[k] == x;
    }
    assert(without(a, b).to_set() =~= a.to_set().difference(b.to_set()));
}

proof fn lemma_concat_set(a: Seq<u8>, b: Seq<u8>)
    ensures
        (a + b).to_set() == a.to_set().union(b.to_set()),
{
    assert((a + b).to_set() =~= a.to_set().union(b.to_set()));
}

impl PatchFragment for Cell {
    type Fragment = CellFragment;

    /// The value becomes the recorded `after`; the removed candidates go and
    /// the added ones come.
    open spec fn applied(v: CellView, fragment: CellFragment) -> CellView {
        CellView {
            value: match fragment@.value {
                Some((_, after)) => after,
                None => v.value,
            },
            candidates: match fragment@.options {
                Some((removed, added)) => v.candidates.difference(removed.to_set()).union(added.to_set()),
                None => v.candidates,
            },
            ..v
        }
    }

    /// The value goes back to the recorded `before`; the removed candidates
    /// come back and the added ones go.
    open spec fn reverted(v: CellView, fragment: CellFragment) -> CellView {
        CellView {
            value: match fragment@.value {
                Some((before, _)) => before,
                None => v.value,
            },
            candidates: match fragment@.options {
                Some((removed, added)) => v.candidates.union(removed.to_set()).difference(added.to_set()),
                None => v.candidates,
            },
            ..v
        }
    }

    /// The recorded `before` is the value, every removed candidate was there
    /// and no added one was.
    open spec fn observed_from(v: CellView, fragment: CellFragment) -> bool {
        &&& match fragment@.value {
            Some((before, _)) => before == v.value,
            None => true,
        }
        &&& match fragment@.options {
            Some((removed, added)) => {
                &&& removed.to_set().subset_of(v.candidates)
                &&& added.to_set().disjoint(v.candidates)
            },
            None => true,
        }
    }

    proof fn lemma_revert_applied(v: CellView, fragment: CellFragment) {
        let w = Self::reverted(Self::applied(v, fragment), fragment);
        match fragment@.options {
            Some((removed, added)) => {
                assert(w.candidates =~= v.candidates);
            },
            None => {},
        }
    }

    fn apply_fragment(&mut self, fragment: &CellFragment)
        ensures
            final(self).index == old(self).index,
            final(self).initial == old(self).initial,
            final(self).value == match fragment@.value {
                Some((_, after)) => after,
                None => old(self).value,
            },
            final(self).options@ == options_applied(old(self).options@, fragment@),
    {
        match &fragment.value {
            Some(pair) => {
                self.value = pair[1];
            },
            None => {},
        }
        match &fragment.options {
            Some(pair) => {
                subtract(&mut self.options, &pair[0]);
                append(&mut self.options, &pair[1]);
                proof {
                    lemma_without_set(old(self).options@, pair@[0]@);
                    lemma_concat_set(without(old(self).options@, pair@[0]@), pair@[1]@);
                }
            },
            None => {},
        }
    }

    fn revert_fragment(&mut self, fragment: &CellFragment)
        ensures
            final(self).index == old(self).index,
            final(self).initial == old(self).initial,
            final(self).value == match fragment@.value {
                Some((before, _)) => before,
                None => old(self).value,
            },
            final(self).options@ == options_reverted(old(self).options@, fragment@),
    {
        match &fragment.value {
            Some(pair) => {
                self.value = pair[0];
            },
            None => {},
        }
        match &fragment.options {
            Some(pair) => {
                append(&mut self.options, &pair[0]);
                subtract(&mut self.options, &pair[1]);
                proof {
                    lemma_concat_set(old(self).options@, pair@[0]@);
                    lemma_without_set(old(self).options@ + pair@[0]@, pair@[1]@);
                }
            },
            None => {},
        }
    }
}

/// For any cell state and any diff recorded from it, reverting the diff
/// right after applying it gives back that state.
pub proof fn lemma_cell_diff_round_trip(s: CellView, fragments: Seq<CellFragment>)
    requires
        observed_all::<Cell>(s, fragments),
    ensures
        reverted_all::<Cell>(applied_all::<Cell>(s, fragments), fragments) == s,
{
    lemma_diff_round_trip::<Cell>(s, fragments);
}

impl PatchDiff for Cell {

}

impl Default for CellFragmentBuilder {
    fn default() -> (r: CellFragmentBuilder)
        ensures
            r@.value.is_none(),
            r@.options.is_none(),
    {
        CellFragmentBuilder::new()
    }
}

} // verus!
