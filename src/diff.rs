//! Recorded before/after changes that can be replayed and undone.

use vstd::prelude::*;

verus! {

/// A value that one fragment of a change can be applied to and reverted from.
///
/// The effect of a fragment is stated on the value's view.
pub trait PatchFragment: View + Sized {
    type Fragment;

    /// The view after applying `fragment` to a value whose view is `v`.
    spec fn applied(v: Self::V, fragment: Self::Fragment) -> Self::V;

    /// The view after reverting `fragment` from a value whose view is `v`.
    spec fn reverted(v: Self::V, fragment: Self::Fragment) -> Self::V;

    /// `fragment` records a change that starts from a value whose view is `v`.
    spec fn observed_from(v: Self::V, fragment: Self::Fragment) -> bool;

    /// Reverting an observed fragment right after applying it restores the view.
    proof fn lemma_revert_applied(v: Self::V, fragment: Self::Fragment)
        requires
            Self::observed_from(v, fragment),
        ensures
            Self::reverted(Self::applied(v, fragment), fragment) == v,
    ;

    fn apply_fragment(&mut self, fragment: &Self::Fragment)
        ensures
            final(self)@ == Self::applied(old(self)@, *fragment),
    ;

    fn revert_fragment(&mut self, fragment: &Self::Fragment)
        ensures
            final(self)@ == Self::reverted(old(self)@, *fragment),
    ;
}

/// The view after applying each of `fragments`, first to last.
pub open spec fn applied_all<T: PatchFragment>(v: T::V, fragments: Seq<T::Fragment>) -> T::V
    decreases fragments.len(),
{
    if fragments.len() == 0 {
        v
    } else {
        applied_all::<T>(T::applied(v, fragments[0]), fragments.subrange(1, fragments.len() as int))
    }
}

/// The view after reverting each of `fragments`, last to first.
pub open spec fn reverted_all<T: PatchFragment>(v: T::V, fragments: Seq<T::Fragment>) -> T::V
    decreases fragments.len(),
{
    if fragments.len() == 0 {
        v
    } else {
        T::reverted(reverted_all::<T>(v, fragments.subrange(1, fragments.len() as int)), fragments[0])
    }
}

/// Each of `fragments` records a change from the view that the ones before it
/// lead to, starting from `v`.
pub open spec fn observed_all<T: PatchFragment>(v: T::V, fragments: Seq<T::Fragment>) -> bool
    decreases fragments.len(),
{
    fragments.len() == 0 || (T::observed_from(v, fragments[0]) && observed_all::<T>(
        T::applied(v, fragments[0]),
        fragments.subrange(1, fragments.len() as int),
    ))
}

/// Reverting a diff right after applying it gives back the starting view,
/// whenever the diff was recorded from that view.
pub proof fn lemma_diff_round_trip<T: PatchFragment>(v: T::V, fragments: Seq<T::Fragment>)
    requires
        observed_all::<T>(v, fragments),
    ensures
        reverted_all::<T>(applied_all::<T>(v, fragments), fragments) == v,
    decreases fragments.len(),
{
    if fragments.len() > 0 {
        let rest = fragments.subrange(1, fragments.len() as int);
        let w = T::applied(v, fragments[0]);
        lemma_diff_round_trip::<T>(w, rest);
        T::lemma_revert_applied(v, fragments[0]);
    }
}

/// An ordered sequence of fragments, fixed once built.
#[derive(Debug)]
pub struct Diff<F> {
    fragments: Vec<F>,
}

impl<F> View for Diff<F> {
    type V = Seq<F>;

    closed spec fn view(&self) -> Seq<F> {
        self.fragments@
    }
}

impl<F> Diff<F> {
    pub fn new(fragments: Vec<F>) -> (r: Diff<F>)
        ensures
            r@ == fragments@,
    {
        Diff { fragments }
    }

    pub fn builder() -> (r: DiffBuilder<F>)
        ensures
            r@ == Seq::<F>::empty(),
    {
        DiffBuilder::new()
    }

    pub fn fragments(&self) -> (r: &Vec<F>)
        ensures
            r@ == self@,
    {
        &self.fragments
    }
}

/// Collects fragments in order, then freezes them into a `Diff`.
pub struct DiffBuilder<F> {
    fragments: Vec<F>,
}

impl<F> View for DiffBuilder<F> {
    type V = Seq<F>;

    closed spec fn view(&self) -> Seq<F> {
        self.fragments@
    }
}

impl<F> DiffBuilder<F> {
    pub fn new() -> (r: DiffBuilder<F>)
        ensures
            r@ == Seq::<F>::empty(),
    {
        DiffBuilder { fragments: Vec::new() }
    }

    /// Appends the fragment that `callback` produces.
    pub fn add_fragment<C>(&mut self, callback: C) -> (r: &mut DiffBuilder<F>)
        where
            C: Fn() -> F,
        requires
            callback.requires(()),
        ensures
            (*r)@.len() == old(self)@.len() + 1,
            (*r)@.drop_last() == old(self)@,
            callback.ensures((), (*r)@.last()),
            *final(self) == *final(r),
    {
        let fragment = callback();
        self.fragments.push(fragment);
        assert(self@.drop_last() =~= old(self)@);
        self
    }

    /// Hands out the collected fragments as a `Diff` and starts over empty.
    pub fn finalize(&mut self) -> (r: Diff<F>)
        ensures
            r@ == old(self)@,
            final(self)@ == Seq::<F>::empty(),
    {
        let mut fragments: Vec<F> = Vec::new();
        std::mem::swap(&mut self.fragments, &mut fragments);
        Diff::new(fragments)
    }
}

impl<F> Default for DiffBuilder<F> {
    fn default() -> (r: DiffBuilder<F>)
        ensures
            r@ == Seq::<F>::empty(),
    {
        DiffBuilder::new()
    }
}

/// Applying and reverting whole diffs, fragment by fragment.
pub trait PatchDiff: PatchFragment {
    /// Applies each fragment of `diff`, first to last.
    fn apply_diff(&mut self, diff: &Diff<Self::Fragment>)
        ensures
            final(self)@ == applied_all::<Self>(old(self)@, diff@),
    {
        let fragments = diff.fragments();
        let n = fragments.len();
        let mut k: usize = 0;
        assert(diff@.subrange(0, n as int) =~= diff@);
        while k < n
            invariant
                n == diff@.len(),
                fragments@ == diff@,
                k <= n,
                applied_all::<Self>(self@, diff@.subrange(k as int, n as int))
                    == applied_all::<Self>(old(self)@, diff@),
            decreases n - k,
        {
            let ghost rest = diff@.subrange(k as int, n as int);
            assert(rest.subrange(1, rest.len() as int) =~= diff@.subrange(k + 1, n as int));
            self.apply_fragment(&fragments[k]);
            k = k + 1;
        }
        assert(diff@.subrange(n as int, n as int) =~= Seq::<Self::Fragment>::empty());
    }

    /// Reverts each fragment of `diff`, last to first.
    fn revert_diff(&mut self, diff: &Diff<Self::Fragment>)
        ensures
            final(self)@ == reverted_all::<Self>(old(self)@, diff@),
    {
        let fragments = diff.fragments();
        let n = fragments.len();
        let mut k: usize = n;
        assert(diff@.subrange(n as int, n as int) =~= Seq::<Self::Fragment>::empty());
        while k > 0
            invariant
                n == diff@.len(),
                fragments@ == diff@,
                k <= n,
                self@ == reverted_all::<Self>(old(self)@, diff@.subrange(k as int, n as int)),
            decreases k,
        {
            let ghost rest = diff@.subrange(k - 1, n as int);
            assert(rest.subrange(1, rest.len() as int) =~= diff@.subrange(k as int, n as int));
            self.revert_fragment(&fragments[k - 1]);
            k = k - 1;
        }
        assert(diff@.subrange(0, n as int) =~= diff@);
    }
}

/// A before/after pair of plain values.
#[derive(Debug)]
pub struct ScalarDiffFragment<T> {
    before: T,
    after: T,
}

impl<T> ScalarDiffFragment<T> {
    /// The value before the change.
    pub closed spec fn before_value(&self) -> T {
        self.before
    }

    /// The value after the change.
    pub closed spec fn after_value(&self) -> T {
        self.after
    }

    pub fn new(before: T, after: T) -> (r: ScalarDiffFragment<T>)
        ensures
            r.before_value() == before,
            r.after_value() == after,
    {
        ScalarDiffFragment { before, after }
    }

    pub fn before(&self) -> (r: &T)
        ensures
            *r == self.before_value(),
    {
        &self.before
    }

    pub fn after(&self) -> (r: &T)
        ensures
            *r == self.after_value(),
    {
        &self.after
    }
}

/// A plain value that can be set while recording the change as a diff.
pub trait ScalarDiff: PatchDiff + PatchFragment<Fragment = ScalarDiffFragment<Self>> + Copy {
    /// Applying a fragment gives its after value, reverting it its before value.
    proof fn lemma_fragment_sides(v: Self::V, fragment: ScalarDiffFragment<Self>)
        ensures
            Self::applied(v, fragment) == fragment.after_value()@,
            Self::reverted(v, fragment) == fragment.before_value()@,
    ;

    /// Sets `self` to `value` and returns the one-fragment diff that records it.
    fn mut_and_diff(&mut self, value: Self) -> (r: Diff<ScalarDiffFragment<Self>>)
        ensures
            r@.len() == 1,
            r@[0].before_value() == *old(self),
            r@[0].after_value() == value,
            final(self)@ == Self::applied(old(self)@, r@[0]),
            final(self)@ == value@,
    {
        let ghost v0 = self@;
        let fragment = ScalarDiffFragment::new(*self, value);
        let diff = Diff::new(vec![fragment]);
        proof {
            let s = diff@;
            assert(s.subrange(1, 1) =~= Seq::<ScalarDiffFragment<Self>>::empty());
            assert(applied_all::<Self>(Self::applied(v0, s[0]), s.subrange(1, 1)) == Self::applied(v0, s[0]));
        }
        self.apply_diff(&diff);
        proof {
            Self::lemma_fragment_sides(v0, diff@[0]);
        }
        diff
    }
}

impl PatchFragment for u8 {
    type Fragment = ScalarDiffFragment<u8>;

    open spec fn applied(v: u8, fragment: ScalarDiffFragment<u8>) -> u8 {
        fragment.after_value()
    }

    open spec fn reverted(v: u8, fragment: ScalarDiffFragment<u8>) -> u8 {
        fragment.before_value()
    }

    open spec fn observed_from(v: u8, fragment: ScalarDiffFragment<u8>) -> bool {
        fragment.before_value() == v
    }

    proof fn lemma_revert_applied(v: u8, fragment: ScalarDiffFragment<u8>) {
    }

    fn apply_fragment(&mut self, fragment: &ScalarDiffFragment<u8>) {
        *self = *fragment.after();
    }

    fn revert_fragment(&mut self, fragment: &ScalarDiffFragment<u8>) {
        *self = *fragment.before();
    }
}

impl PatchDiff for u8 {

}

impl ScalarDiff for u8 {
    proof fn lemma_fragment_sides(v: u8, fragment: ScalarDiffFragment<u8>) {
    }
}

impl PatchFragment for u32 {
    type Fragment = ScalarDiffFragment<u32>;

    open spec fn applied(v: u32, fragment: ScalarDiffFragment<u32>) -> u32 {
        fragment.after_value()
    }

    open spec fn reverted(v: u32, fragment: ScalarDiffFragment<u32>) -> u32 {
        fragment.before_value()
    }

    open spec fn observed_from(v: u32, fragment: ScalarDiffFragment<u32>) -> bool {
        fragment.before_value() == v
    }

    proof fn lemma_revert_applied(v: u32, fragment: ScalarDiffFragment<u32>) {
    }

    fn apply_fragment(&mut self, fragment: &ScalarDiffFragment<u32>) {
        *self = *fragment.after();
    }

    fn revert_fragment(&mut self, fragment: &ScalarDiffFragment<u32>) {
        *self = *fragment.before();
    }
}

impl PatchDiff for u32 {

}

impl ScalarDiff for u32 {
    proof fn lemma_fragment_sides(v: u32, fragment: ScalarDiffFragment<u32>) {
    }
}

impl PatchFragment for u64 {
    type Fragment = ScalarDiffFragment<u64>;

    open spec fn applied(v: u64, fragment: ScalarDiffFragment<u64>) -> u64 {
        fragment.after_value()
    }

    open spec fn reverted(v: u64, fragment: ScalarDiffFragment<u64>) -> u64 {
        fragment.before_value()
    }

    open spec fn observed_from(v: u64, fragment: ScalarDiffFragment<u64>) -> bool {
        fragment.before_value() == v
    }

    proof fn lemma_revert_applied(v: u64, fragment: ScalarDiffFragment<u64>) {
    }

    fn apply_fragment(&mut self, fragment: &ScalarDiffFragment<u64>) {
        *self = *fragment.after();
    }

    fn revert_fragment(&mut self, fragment: &ScalarDiffFragment<u64>) {
        *self = *fragment.before();
    }
}

impl PatchDiff for u64 {

}

impl ScalarDiff for u64 {
    proof fn lemma_fragment_sides(v: u64, fragment: ScalarDiffFragment<u64>) {
    }
}

impl PatchFragment for usize {
    type Fragment = ScalarDiffFragment<usize>;

    open spec fn applied(v: usize, fragment: ScalarDiffFragment<usize>) -> usize {
        fragment.after_value()
    }

    open spec fn reverted(v: usize, fragment: ScalarDiffFragment<usize>) -> usize {
        fragment.before_value()
    }

    open spec fn observed_from(v: usize, fragment: ScalarDiffFragment<usize>) -> bool {
        fragment.before_value() == v
    }

    proof fn lemma_revert_applied(v: usize, fragment: ScalarDiffFragment<usize>) {
    }

    fn apply_fragment(&mut self, fragment: &ScalarDiffFragment<usize>) {
        *self = *fragment.after();
    }

    fn revert_fragment(&mut self, fragment: &ScalarDiffFragment<usize>) {
        *self = *fragment.before();
    }
}

impl PatchDiff for usize {

}

impl ScalarDiff for usize {
    proof fn lemma_fragment_sides(v: usize, fragment: ScalarDiffFragment<usize>) {
    }
}

impl PatchFragment for i32 {
    type Fragment = ScalarDiffFragment<i32>;

    open spec fn applied(v: i32, fragment: ScalarDiffFragment<i32>) -> i32 {
        fragment.after_value()
    }

    open spec fn reverted(v: i32, fragment: ScalarDiffFragment<i32>) -> i32 {
        fragment.before_value()
    }

    open spec fn observed_from(v: i32, fragment: ScalarDiffFragment<i32>) -> bool {
        fragment.before_value() == v
    }

    proof fn lemma_revert_applied(v: i32, fragment: ScalarDiffFragment<i32>) {
    }

    fn apply_fragment(&mut self, fragment: &ScalarDiffFragment<i32>) {
        *self = *fragment.after();
    }

    fn revert_fragment(&mut self, fragment: &ScalarDiffFragment<i32>) {
        *self = *fragment.before();
    }
}

impl PatchDiff for i32 {

}

impl ScalarDiff for i32 {
    proof fn lemma_fragment_sides(v: i32, fragment: ScalarDiffFragment<i32>) {
    }
}

impl PatchFragment for i64 {
    type Fragment = ScalarDiffFragment<i64>;

    open spec fn applied(v: i64, fragment: ScalarDiffFragment<i64>) -> i64 {
        fragment.after_value()
    }

    open spec fn reverted(v: i64, fragment: ScalarDiffFragment<i64>) -> i64 {
        fragment.before_value()
    }

    open spec fn observed_from(v: i64, fragment: ScalarDiffFragment<i64>) -> bool {
        fragment.before_value() == v
    }

    proof fn lemma_revert_applied(v: i64, fragment: ScalarDiffFragment<i64>) {
    }

    fn apply_fragment(&mut self, fragment: &ScalarDiffFragment<i64>) {
        *self = *fragment.after();
    }

    fn revert_fragment(&mut self, fragment: &ScalarDiffFragment<i64>) {
        *self = *fragment.before();
    }
}

impl PatchDiff for i64 {

}

impl ScalarDiff for i64 {
    proof fn lemma_fragment_sides(v: i64, fragment: ScalarDiffFragment<i64>) {
    }
}

impl PatchFragment for bool {
    type Fragment = ScalarDiffFragment<bool>;

    open spec fn applied(v: bool, fragment: ScalarDiffFragment<bool>) -> bool {
        fragment.after_value()
    }

    open spec fn reverted(v: bool, fragment: ScalarDiffFragment<bool>) -> bool {
        fragment.before_value()
    }

    open spec fn observed_from(v: bool, fragment: ScalarDiffFragment<bool>) -> bool {
        fragment.before_value() == v
    }

    proof fn lemma_revert_applied(v: bool, fragment: ScalarDiffFragment<bool>) {
    }

    fn apply_fragment(&mut self, fragment: &ScalarDiffFragment<bool>) {
        *self = *fragment.after();
    }

    fn revert_fragment(&mut self, fragment: &ScalarDiffFragment<bool>) {
        *self = *fragment.before();
    }
}

impl PatchDiff for bool {

}

impl ScalarDiff for bool {
    proof fn lemma_fragment_sides(v: bool, fragment: ScalarDiffFragment<bool>) {
    }
}

impl PatchFragment for char {
    type Fragment = ScalarDiffFragment<char>;

    open spec fn applied(v: char, fragment: ScalarDiffFragment<char>) -> char {
        fragment.after_value()
    }

    open spec fn reverted(v: char, fragment: ScalarDiffFragment<char>) -> char {
        fragment.before_value()
    }

    open spec fn observed_from(v: char, fragment: ScalarDiffFragment<char>) -> bool {
        fragment.before_value() == v
    }

    proof fn lemma_revert_applied(v: char, fragment: ScalarDiffFragment<char>) {
    }

    fn apply_fragment(&mut self, fragment: &ScalarDiffFragment<char>) {
        *self = *fragment.after();
    }

    fn revert_fragment(&mut self, fragment: &ScalarDiffFragment<char>) {
        *self = *fragment.before();
    }
}

impl PatchDiff for char {

}

impl ScalarDiff for char {
    proof fn lemma_fragment_sides(v: char, fragment: ScalarDiffFragment<char>) {
    }
}

impl<'a> PatchFragment for &'a str {
    type Fragment = ScalarDiffFragment<&'a str>;

    open spec fn applied(v: Seq<char>, fragment: ScalarDiffFragment<&'a str>) -> Seq<char> {
        fragment.after_value()@
    }

    open spec fn reverted(v: Seq<char>, fragment: ScalarDiffFragment<&'a str>) -> Seq<char> {
        fragment.before_value()@
    }

    open spec fn observed_from(v: Seq<char>, fragment: ScalarDiffFragment<&'a str>) -> bool {
        fragment.before_value()@ == v
    }

    proof fn lemma_revert_applied(v: Seq<char>, fragment: ScalarDiffFragment<&'a str>) {
    }

    fn apply_fragment(&mut self, fragment: &ScalarDiffFragment<&'a str>) {
        *self = *fragment.after();
    }

    fn revert_fragment(&mut self, fragment: &ScalarDiffFragment<&'a str>) {
        *self = *fragment.before();
    }
}

impl<'a> PatchDiff for &'a str {

}

impl<'a> ScalarDiff for &'a str {
    proof fn lemma_fragment_sides(v: Seq<char>, fragment: ScalarDiffFragment<&'a str>) {
    }
}

} // verus!
