//! A fixed-capacity, append-only slot store that hands out stable handles.
//! The slots are an array of the capacity's length: the store takes its
//! memory once and never grows.

use vstd::prelude::*;

verus! {

/// Handle of one slot of an [`Arena`]: the position at which the slot was filled.
#[derive(Clone, Copy, Debug)]
pub struct ArenaID(usize);

impl ArenaID {
    /// The position that this handle names.
    pub closed spec fn index(self) -> nat {
        self.0 as nat
    }
}

impl Default for ArenaID {
    /// The handle of the first slot.
    fn default() -> (id: Self)
        ensures
            id.index() == 0,
    {
        ArenaID(0)
    }
}

impl From<usize> for ArenaID {
    fn from(value: usize) -> (id: Self) {
        ArenaID(value)
    }
}

impl vstd::std_specs::convert::FromSpecImpl<usize> for ArenaID {
    open spec fn obeys_from_spec() -> bool {
        true
    }

    closed spec fn from_spec(value: usize) -> Self {
        ArenaID(value)
    }
}

impl From<ArenaID> for usize {
    fn from(id: ArenaID) -> (value: usize) {
        id.0
    }
}

impl vstd::std_specs::convert::FromSpecImpl<ArenaID> for usize {
    open spec fn obeys_from_spec() -> bool {
        true
    }

    closed spec fn from_spec(id: ArenaID) -> usize {
        id.0
    }
}

/// A handle made from a position names that position, and gives it back.
pub broadcast proof fn lemma_handle_round_trip(value: usize)
    ensures
        (#[trigger] <ArenaID as vstd::std_specs::convert::FromSpec<usize>>::from_spec(value)).index() == value,
        <usize as vstd::std_specs::convert::FromSpec<ArenaID>>::from_spec(
            <ArenaID as vstd::std_specs::convert::FromSpec<usize>>::from_spec(value),
        ) == value,
{
}

/// The position that a handle converts to is the one that it names.
pub broadcast proof fn lemma_handle_position(id: ArenaID)
    ensures
        #[trigger] <usize as vstd::std_specs::convert::FromSpec<ArenaID>>::from_spec(id) == id.index(),
{
}

/// What an arena holds after `items` were added, one after the other, to an
/// arena that held `before`.
pub open spec fn added_all<T>(before: Seq<T>, items: Seq<T>) -> Seq<T>
    decreases items.len(),
{
    if items.len() == 0 {
        before
    } else {
        added_all(before, items.drop_last()).push(items.last())
    }
}

/// The handle that insertion number `j` of `items` returns, counted from 0,
/// on an arena that held `before`: the number of items that are live when it
/// is made.
pub open spec fn handle_at<T>(before: Seq<T>, items: Seq<T>, j: int) -> nat {
    added_all(before, items.take(j)).len()
}

/// Adding keeps what was there and appends the new items in their order.
pub proof fn lemma_added_all<T>(before: Seq<T>, items: Seq<T>)
    ensures
        added_all(before, items) == before + items,
    decreases items.len(),
{
    if items.len() == 0 {
        assert(before + items =~= before);
    } else {
        lemma_added_all(before, items.drop_last());
        assert(before + items =~= (before + items.drop_last()).push(items.last()));
    }
}

/// On a fresh arena, and on one that was just reset, the handles come out as
/// 0, 1, 2, ..: insertion number `j` returns handle `j`. The arena then
/// holds as many items as were added, so the last handle names a live slot
/// and the position after it names none.
pub proof fn lemma_handles_count_up<T>(items: Seq<T>, j: int)
    requires
        0 <= j < items.len(),
    ensures
        handle_at(Seq::<T>::empty(), items, j) == j,
        added_all(Seq::<T>::empty(), items) == items,
        added_all(Seq::<T>::empty(), items).len() == items.len(),
        handle_at(Seq::<T>::empty(), items, items.len() - 1) < added_all(
            Seq::<T>::empty(),
            items,
        ).len(),
        !(handle_at(Seq::<T>::empty(), items, items.len() - 1) + 1 < added_all(
            Seq::<T>::empty(),
            items,
        ).len()),
{
    lemma_added_all(Seq::<T>::empty(), items);
    lemma_added_all(Seq::<T>::empty(), items.take(j));
    lemma_added_all(Seq::<T>::empty(), items.take(items.len() - 1));
    assert(Seq::<T>::empty() + items =~= items);
    assert(Seq::<T>::empty() + items.take(j) =~= items.take(j));
    assert(Seq::<T>::empty() + items.take(items.len() - 1) =~= items.take(items.len() - 1));
}

/// A handle, once returned, keeps naming the same item however many items
/// are added after it.
pub proof fn lemma_handles_are_stable<T>(before: Seq<T>, items: Seq<T>, at: int)
    requires
        0 <= at < before.len(),
    ensures
        at < added_all(before, items).len(),
        added_all(before, items)[at] == before[at],
{
    lemma_added_all(before, items);
}

/// One item at its default, for the slots that nothing was added to yet.
fn default_item<T: Default>() -> T {
    T::default()
}

/// An array with every slot at the default of its type.
///
/// Trusted: this is `core::array::from_fn` of the standard library, which
/// calls the closure once for each position and makes the array of what it
/// returned. Nothing is claimed of the items; the length is in the type.
#[verifier::external_body]
fn array_of_defaults<T: Default, const N: usize>() -> (items: [T; N]) {
    core::array::from_fn(|_| default_item::<T>())
}

/// Append-only store of at most `N` items of type `T`.
///
/// All `N` slots exist from the start; the cursor parts the live ones from
/// the rest. A reset moves the cursor and runs no teardown of the items:
/// they stay in their slots until later insertions overwrite them.
#[derive(Clone, Debug)]
pub struct Arena<T, const N: usize> {
    current: usize,
    arena: [T; N],
}

impl<T, const N: usize> View for Arena<T, N> {
    type V = Seq<T>;

    /// The live items, in the order in which they were added.
    closed spec fn view(&self) -> Seq<T> {
        self.arena@.subrange(0, self.current as int)
    }
}

impl<T, const N: usize> From<[T; N]> for Arena<T, N> {
    /// An arena filled to its capacity with `items`, in their order.
    fn from(items: [T; N]) -> (arena: Self)
        ensures
            arena.wf(),
            arena@ == items@,
    {
        assert(items@.subrange(0, N as int) =~= items@);
        Arena { current: N, arena: items }
    }
}

impl<T, const N: usize> vstd::std_specs::convert::FromSpecImpl<[T; N]> for Arena<T, N> {
    open spec fn obeys_from_spec() -> bool {
        true
    }

    closed spec fn from_spec(items: [T; N]) -> Self {
        Arena { current: N, arena: items }
    }
}

impl<T, const N: usize> Arena<T, N> {
    /// The cursor lies inside the slots.
    pub closed spec fn wf(&self) -> bool {
        self.current <= N
    }

    /// The number of items that the arena can hold.
    pub open spec fn capacity() -> nat {
        N as nat
    }

    /// Whether `id` names a live slot of this arena: whether a read through
    /// `id` is in order.
    pub open spec fn contains(&self, id: ArenaID) -> bool {
        id.index() < self@.len()
    }

    /// A live prefix is never longer than the capacity.
    pub proof fn lemma_len_bounded(&self)
        requires
            self.wf(),
        ensures
            self@.len() <= Self::capacity(),
    {
    }

    /// The handles of an arena are the positions before its length: the one
    /// that `add` returned last names a live slot, the position after it
    /// names none, and so does every position of an arena without items.
    pub proof fn lemma_live_handles(&self, id: ArenaID)
        requires
            self.wf(),
        ensures
            self.contains(id) <==> id.index() < self@.len(),
            id.index() + 1 == self@.len() ==> self.contains(id),
            id.index() == self@.len() ==> !self.contains(id),
            self@.len() == 0 ==> !self.contains(id),
    {
    }

    /// What `from` makes of an array, in terms of the view.
    pub proof fn lemma_from_array(items: [T; N])
        ensures
            <Self as vstd::std_specs::convert::FromSpec<[T; N]>>::from_spec(items).wf(),
            <Self as vstd::std_specs::convert::FromSpec<[T; N]>>::from_spec(items)@ == items@,
    {
        assert(items@.subrange(0, N as int) =~= items@);
    }

    /// An arena with no live item.
    pub fn empty() -> (arena: Self) where T: Default
        ensures
            arena.wf(),
            arena@ == Seq::<T>::empty(),
            forall|id: ArenaID| !arena.contains(id),
    {
        Arena { current: 0, arena: array_of_defaults() }
    }

    /// Forgets every item: the next insertion gets handle 0 again, and until
    /// then no handle names a live slot.
    pub fn reset(&mut self)
        requires
            old(self).wf(),
        ensures
            final(self).wf(),
            final(self)@ == Seq::<T>::empty(),
            forall|id: ArenaID| !final(self).contains(id),
    {
        self.current = 0;
    }

    /// The number of live items.
    pub fn len(&self) -> (n: usize)
        requires
            self.wf(),
        ensures
            n == self@.len(),
            n <= N,
    {
        self.current
    }

    /// Appends `item` and returns its handle, which is the number of items
    /// that were live before: a handle that named no slot until now, and
    /// names the last one from now on. Every older handle keeps its item.
    pub fn add(&mut self, item: T) -> (id: ArenaID)
        requires
            old(self).wf(),
            old(self)@.len() < Self::capacity(),
        ensures
            final(self).wf(),
            final(self)@ == old(self)@.push(item),
            id.index() == old(self)@.len(),
            !old(self).contains(id),
            final(self).contains(id),
            id.index() + 1 == final(self)@.len(),
    {
        let at: usize = self.current;
        self.arena[at] = item;
        self.current = at + 1;
        assert(self@ =~= old(self)@.push(item));
        ArenaID(at)
    }

    /// The item of a live slot.
    pub fn get(&self, id: ArenaID) -> (item: &T)
        requires
            self.wf(),
            self.contains(id),
        ensures
            *item == self@[id.index() as int],
    {
        &self.arena[id.0]
    }

    /// Exclusive access to the item of a live slot: what the caller leaves in
    /// it is what the arena holds there afterwards, and no other slot changes.
    pub fn get_mut(&mut self, id: ArenaID) -> (item: &mut T)
        requires
            old(self).wf(),
            old(self).contains(id),
        ensures
            *item == old(self)@[id.index() as int],
            final(self).wf(),
            final(self)@ == old(self)@.update(id.index() as int, *final(item)),
    {
        &mut self.arena[id.0]
    }

    /// The live items as a slice, in insertion order.
    pub fn slice(&self) -> (items: &[T])
        requires
            self.wf(),
        ensures
            items@ == self@,
    {
        vstd::slice::slice_subrange(self.arena.as_slice(), 0, self.current)
    }

    /// Exclusive access to the live items as a slice: what the caller leaves
    /// in it is what the arena holds afterwards. A slice keeps its length;
    /// the last two clauses say what holds of the arena given that.
    pub fn slice_mut(&mut self) -> (items: &mut [T])
        requires
            old(self).wf(),
        ensures
            items@ == old(self)@,
            final(items)@.len() == old(self)@.len() ==> final(self).wf(),
            final(items)@.len() == old(self)@.len() ==> final(self)@ == final(items)@,
    {
        let live: usize = self.current;
        let whole: &mut [T] = &mut self.arena;
        let (head, _tail) = whole.split_at_mut(live);
        head
    }
}

} // verus!
