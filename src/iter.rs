//! Cursors over the elements of a bitmap: a forward one, a backward one, and bulk reads.
//!
//! Each iterator holds two independent cursors over the sorted elements: one walks up from
//! the smallest, the other down from the largest. A cursor is a position, so the owning
//! iterator can be moved freely.
use vstd::prelude::*;
use crate::bitmap::Bitmap;
use crate::sorted::{lemma_sorted_unique, strictly_sorted};

verus! {

broadcast use vstd::seq_lib::group_seq_properties;

/// One `next` on a forward cursor at `front`: the value read and the new position.
pub open spec fn step_forward(elems: Seq<u32>, front: nat) -> (Option<u32>, nat) {
    if front < elems.len() {
        (Some(elems[front as int]), front + 1)
    } else {
        (None, front)
    }
}

/// One `next_back` on a backward cursor that has `back` elements left below it.
pub open spec fn step_backward(elems: Seq<u32>, back: nat) -> (Option<u32>, nat) {
    if back > 0 {
        (Some(elems[back - 1]), (back - 1) as nat)
    } else {
        (None, back)
    }
}

/// How many values one bulk read with a buffer of `room` places takes: as many as fit, at
/// most `u32::MAX`, and no more than remain.
pub open spec fn bulk_count(elems: Seq<u32>, front: nat, room: nat) -> nat {
    let cap: nat = if room > u32::MAX { u32::MAX as nat } else { room };
    let left: nat = if front < elems.len() { (elems.len() - front) as nat } else { 0 };
    if cap < left { cap } else { left }
}

/// One bulk read with a buffer of `room` places: the values written and the new position.
pub open spec fn step_bulk(elems: Seq<u32>, front: nat, room: nat) -> (Seq<u32>, nat) {
    let n = bulk_count(elems, front, room);
    (elems.subrange(front as int, (front + n) as int), front + n)
}

/// The values that repeated `next` calls yield until the first `None`.
pub open spec fn forward_rest(elems: Seq<u32>, front: nat) -> Seq<u32>
    decreases elems.len() - front,
{
    if front < elems.len() {
        seq![elems[front as int]] + forward_rest(elems, front + 1)
    } else {
        Seq::empty()
    }
}

/// The values that repeated `next_back` calls yield until the first `None`.
pub open spec fn backward_rest(elems: Seq<u32>, back: nat) -> Seq<u32>
    decreases back,
{
    if back > 0 {
        seq![elems[back - 1]] + backward_rest(elems, (back - 1) as nat)
    } else {
        Seq::empty()
    }
}

/// The values that repeated bulk reads with `room` places yield, concatenated, until one
/// returns 0.
pub open spec fn bulk_rest(elems: Seq<u32>, front: nat, room: nat) -> Seq<u32>
    decreases elems.len() - front,
{
    let (out, next) = step_bulk(elems, front, room);
    if out.len() > 0 && front < elems.len() {
        out + bulk_rest(elems, next, room)
    } else {
        Seq::empty()
    }
}

/// A mix of calls on a forward cursor: `None` for `next`, `Some(room)` for a bulk read with
/// `room` places. Gives the values read, in order, and the final position.
pub open spec fn run_calls(elems: Seq<u32>, front: nat, calls: Seq<Option<nat>>) -> (Seq<u32>, nat)
    decreases calls.len(),
{
    if calls.len() == 0 {
        (Seq::empty(), front)
    } else {
        let (out, next) = match calls[0] {
            None => match step_forward(elems, front) {
                (Some(v), f) => (seq![v], f),
                (None, f) => (Seq::empty(), f),
            },
            Some(room) => step_bulk(elems, front, room),
        };
        let (more, last) = run_calls(elems, next, calls.drop_first());
        (out + more, last)
    }
}

/// What a forward cursor yields from `front` is the rest of the elements.
pub proof fn lemma_forward_rest(elems: Seq<u32>, front: nat)
    requires
        front <= elems.len(),
    ensures
        forward_rest(elems, front) == elems.subrange(front as int, elems.len() as int),
    decreases elems.len() - front,
{
    if front < elems.len() {
        lemma_forward_rest(elems, front + 1);
    }
    assert(forward_rest(elems, front) =~= elems.subrange(front as int, elems.len() as int));
}

/// What a backward cursor yields is the elements below it, largest first.
pub proof fn lemma_backward_rest(elems: Seq<u32>, back: nat)
    requires
        back <= elems.len(),
    ensures
        backward_rest(elems, back) == elems.subrange(0, back as int).reverse(),
    decreases back,
{
    if back > 0 {
        lemma_backward_rest(elems, (back - 1) as nat);
    }
    assert(backward_rest(elems, back) =~= elems.subrange(0, back as int).reverse());
}

/// Iterating forward to the end gives the reverse of iterating backward to the end.
pub proof fn lemma_forward_backward(elems: Seq<u32>)
    ensures
        forward_rest(elems, 0) == backward_rest(elems, elems.len()).reverse(),
{
    lemma_forward_rest(elems, 0);
    lemma_backward_rest(elems, elems.len());
    assert(elems.subrange(0, elems.len() as int).reverse().reverse() =~= elems.subrange(
        0,
        elems.len() as int,
    ));
}

/// Bulk reads with any buffer of at least one place, repeated until one returns 0, give what
/// repeated `next` calls give.
pub proof fn lemma_bulk_matches_next(elems: Seq<u32>, front: nat, room: nat)
    requires
        room > 0,
        front <= elems.len(),
    ensures
        bulk_rest(elems, front, room) == forward_rest(elems, front),
    decreases elems.len() - front,
{
    lemma_forward_rest(elems, front);
    if front < elems.len() {
        let (out, next) = step_bulk(elems, front, room);
        lemma_bulk_matches_next(elems, next, room);
        lemma_forward_rest(elems, next);
        assert(out + elems.subrange(next as int, elems.len() as int) =~= elems.subrange(
            front as int,
            elems.len() as int,
        ));
    }
}

/// Any mix of `next` calls and bulk reads reads the values in order, skipping and repeating
/// none: what it read, followed by what the cursor still yields, is what it yielded at the
/// start.
pub proof fn lemma_interleaving(elems: Seq<u32>, front: nat, calls: Seq<Option<nat>>)
    requires
        front <= elems.len(),
    ensures
        run_calls(elems, front, calls).1 <= elems.len(),
        run_calls(elems, front, calls).0 + forward_rest(elems, run_calls(elems, front, calls).1)
            == forward_rest(elems, front),
    decreases calls.len(),
{
    lemma_forward_rest(elems, front);
    if calls.len() > 0 {
        let (out, next) = match calls[0] {
            None => match step_forward(elems, front) {
                (Some(v), f) => (seq![v], f),
                (None, f) => (Seq::empty(), f),
            },
            Some(room) => step_bulk(elems, front, room),
        };
        assert(next <= elems.len());
        assert(out =~= elems.subrange(front as int, next as int));
        lemma_interleaving(elems, next, calls.drop_first());
        lemma_forward_rest(elems, next);
        let (more, last) = run_calls(elems, next, calls.drop_first());
        assert(run_calls(elems, front, calls) == (out + more, last));
        assert(more + forward_rest(elems, last) == forward_rest(elems, next));
        assert(out + forward_rest(elems, next) =~= forward_rest(elems, front));
        assert(out + more + forward_rest(elems, last) =~= out + (more + forward_rest(elems, last)));
    }
}

/// An iterator that borrows a bitmap.
pub struct BitmapIterator<'a> {
    bitmap: &'a Bitmap,
    front: usize,
    back: usize,
}

impl<'a> BitmapIterator<'a> {
    /// The elements walked, ascending.
    pub closed spec fn elems(&self) -> Seq<u32> {
        self.bitmap.raw()
    }

    /// The position of the forward cursor: how many elements it has passed.
    pub closed spec fn front(&self) -> nat {
        self.front as nat
    }

    /// How many elements remain below the backward cursor.
    pub closed spec fn back(&self) -> nat {
        self.back as nat
    }

    /// Well-formed: the elements are strictly increasing and both cursors lie within them.
    pub closed spec fn wf(&self) -> bool {
        &&& strictly_sorted(self.elems())
        &&& self.front <= self.elems().len()
        &&& self.back <= self.elems().len()
    }

    fn new(bitmap: &'a Bitmap) -> (r: Self)
        requires
            bitmap.is_normal(),
        ensures
            r.wf(),
            r.elems() == bitmap.raw(),
            r.front() == 0,
            r.back() == bitmap.raw().len(),
    {
        BitmapIterator { bitmap, front: 0, back: bitmap.vals.len() }
    }

    /// The next value upwards, if any.
    pub fn next(&mut self) -> (r: Option<u32>)
        requires
            old(self).wf(),
        ensures
            final(self).wf(),
            final(self).elems() == old(self).elems(),
            final(self).back() == old(self).back(),
            (r, final(self).front()) == step_forward(old(self).elems(), old(self).front()),
    {
        if self.front < self.bitmap.vals.len() {
            let v = self.bitmap.vals[self.front];
            self.front = self.front + 1;
            Some(v)
        } else {
            None
        }
    }

    /// The next value downwards, if any.
    pub fn next_back(&mut self) -> (r: Option<u32>)
        requires
            old(self).wf(),
        ensures
            final(self).wf(),
            final(self).elems() == old(self).elems(),
            final(self).front() == old(self).front(),
            (r, final(self).back()) == step_backward(old(self).elems(), old(self).back()),
    {
        if self.back > 0 {
            self.back = self.back - 1;
            Some(self.bitmap.vals[self.back])
        } else {
            None
        }
    }

    /// Reads as many values upwards as `dst` holds (at most `u32::MAX`) into its start, and
    /// returns how many; fewer only when the cursor runs out.
    pub fn next_many(&mut self, dst: &mut [u32]) -> (r: usize)
        requires
            old(self).wf(),
        ensures
            final(self).wf(),
            final(self).elems() == old(self).elems(),
            final(self).back() == old(self).back(),
            r as nat == bulk_count(old(self).elems(), old(self).front(), old(dst)@.len()),
            (final(dst)@.subrange(0, r as int), final(self).front()) == step_bulk(
                old(self).elems(),
                old(self).front(),
                old(dst)@.len(),
            ),
            final(dst)@.subrange(r as int, old(dst)@.len() as int) == old(dst)@.subrange(
                r as int,
                old(dst)@.len() as int,
            ),
            final(dst)@.len() == old(dst)@.len(),
    {
        let n = read_many(&self.bitmap.vals, self.front, dst);
        self.front = self.front + n;
        n
    }
}

/// An iterator that owns its bitmap, so it can outlive any borrow of it.
pub struct BitmapIntoIterator {
    bitmap: Bitmap,
    front: usize,
    back: usize,
}

impl BitmapIntoIterator {
    /// The elements walked, ascending.
    pub closed spec fn elems(&self) -> Seq<u32> {
        self.bitmap.raw()
    }

    /// The position of the forward cursor: how many elements it has passed.
    pub closed spec fn front(&self) -> nat {
        self.front as nat
    }

    /// How many elements remain below the backward cursor.
    pub closed spec fn back(&self) -> nat {
        self.back as nat
    }

    /// Well-formed: the elements are strictly increasing and both cursors lie within them.
    pub closed spec fn wf(&self) -> bool {
        &&& strictly_sorted(self.elems())
        &&& self.front <= self.elems().len()
        &&& self.back <= self.elems().len()
    }

    fn new(bitmap: Bitmap) -> (r: Self)
        requires
            bitmap.is_normal(),
        ensures
            r.wf(),
            r.elems() == bitmap.raw(),
            r.front() == 0,
            r.back() == bitmap.raw().len(),
    {
        let back = bitmap.vals.len();
        BitmapIntoIterator { bitmap, front: 0, back }
    }

    /// The next value upwards, if any.
    pub fn next(&mut self) -> (r: Option<u32>)
        requires
            old(self).wf(),
        ensures
            final(self).wf(),
            final(self).elems() == old(self).elems(),
            final(self).back() == old(self).back(),
            (r, final(self).front()) == step_forward(old(self).elems(), old(self).front()),
    {
        if self.front < self.bitmap.vals.len() {
            let v = self.bitmap.vals[self.front];
            self.front = self.front + 1;
            Some(v)
        } else {
            None
        }
    }

    /// The next value downwards, if any.
    pub fn next_back(&mut self) -> (r: Option<u32>)
        requires
            old(self).wf(),
        ensures
            final(self).wf(),
            final(self).elems() == old(self).elems(),
            final(self).front() == old(self).front(),
            (r, final(self).back()) == step_backward(old(self).elems(), old(self).back()),
    {
        if self.back > 0 {
            self.back = self.back - 1;
            Some(self.bitmap.vals[self.back])
        } else {
            None
        }
    }

    /// Reads as many values upwards as `dst` holds (at most `u32::MAX`) into its start, and
    /// returns how many; fewer only when the cursor runs out.
    pub fn next_many(&mut self, dst: &mut [u32]) -> (r: usize)
        requires
            old(self).wf(),
        ensures
            final(self).wf(),
            final(self).elems() == old(self).elems(),
            final(self).back() == old(self).back(),
            r as nat == bulk_count(old(self).elems(), old(self).front(), old(dst)@.len()),
            (final(dst)@.subrange(0, r as int), final(self).front()) == step_bulk(
                old(self).elems(),
                old(self).front(),
                old(dst)@.len(),
            ),
            final(dst)@.subrange(r as int, old(dst)@.len() as int) == old(dst)@.subrange(
                r as int,
                old(dst)@.len() as int,
            ),
            final(dst)@.len() == old(dst)@.len(),
    {
        let n = read_many(&self.bitmap.vals, self.front, dst);
        self.front = self.front + n;
        n
    }
}

impl Bitmap {
    /// An iterator over the values held, ascending from the front and descending from the
    /// back.
    pub fn iter(&self) -> (r: BitmapIterator<'_>)
        requires
            self.is_normal(),
        ensures
            r.wf(),
            r.elems() == self.raw(),
            strictly_sorted(r.elems()),
            r.elems().to_set() == self@,
            r.front() == 0,
            r.back() == r.elems().len(),
    {
        BitmapIterator::new(self)
    }

    /// An iterator that takes this bitmap over.
    pub fn into_iter(self) -> (r: BitmapIntoIterator)
        requires
            self.is_normal(),
        ensures
            r.wf(),
            r.elems() == self.raw(),
            strictly_sorted(r.elems()),
            r.elems().to_set() == self@,
            r.front() == 0,
            r.back() == r.elems().len(),
    {
        BitmapIntoIterator::new(self)
    }

    /// A bitmap holding the given values; order and duplicates do not matter.
    pub fn from_iter(items: &[u32]) -> (r: Bitmap)
        ensures
            r.is_normal(),
            r@ == items@.to_set(),
    {
        Bitmap::of(items)
    }

    /// Adds the given values one at a time.
    pub fn extend(&mut self, items: &[u32])
        requires
            old(self).is_normal(),
        ensures
            final(self).is_normal(),
            final(self)@ == old(self)@.union(items@.to_set()),
    {
        let mut i: usize = 0;
        while i < items.len()
            invariant
                i <= items@.len(),
                self.is_normal(),
                self@ == old(self)@.union(items@.subrange(0, i as int).to_set()),
            decreases items@.len() - i,
        {
            self.add(items[i]);
            assert(items@.subrange(0, i + 1) =~= items@.subrange(0, i as int).push(items@[i as int]));
            assert(self@ =~= old(self)@.union(items@.subrange(0, i + 1).to_set()));
            i = i + 1;
        }
        assert(items@.subrange(0, i as int) =~= items@);
    }
}

/// Building a bitmap from a sequence gives the same bitmap, as `==` compares them, as
/// extending an empty one with the same sequence, whatever its order and duplicates.
pub proof fn lemma_from_iter_matches_extend(items: Seq<u32>, built: Bitmap, empty: Bitmap, extended: Bitmap)
    requires
        built.is_normal(),
        built@ == items.to_set(),
        empty@ == Set::<u32>::empty(),
        extended.is_normal(),
        extended@ == empty@.union(items.to_set()),
    ensures
        built.raw() == extended.raw(),
{
    assert(extended@ =~= items.to_set());
    lemma_sorted_unique(built.raw(), extended.raw());
}

/// Copies the values of `vals` from `front` on into `dst`, as many as fit and at most
/// `u32::MAX`, and returns how many.
fn read_many(vals: &Vec<u32>, front: usize, dst: &mut [u32]) -> (r: usize)
    requires
        front <= vals@.len(),
    ensures
        r as nat == bulk_count(vals@, front as nat, old(dst)@.len()),
        front + r <= vals@.len(),
        front + r <= usize::MAX,
        final(dst)@.len() == old(dst)@.len(),
        final(dst)@.subrange(0, r as int) == vals@.subrange(front as int, front + r),
        final(dst)@.subrange(r as int, old(dst)@.len() as int) == old(dst)@.subrange(
            r as int,
            old(dst)@.len() as int,
        ),
{
    let cap: usize = if dst.len() > u32::MAX as usize {
        u32::MAX as usize
    } else {
        dst.len()
    };
    let left: usize = vals.len() - front;
    let n: usize = if cap < left {
        cap
    } else {
        left
    };
    let mut i: usize = 0;
    while i < n
        invariant
            n as nat == bulk_count(vals@, front as nat, old(dst)@.len()),
            n <= old(dst)@.len(),
            front + n <= vals@.len(),
            front + n <= usize::MAX,
            i <= n,
            dst@.len() == old(dst)@.len(),
            forall|k: int| 0 <= k < i ==> dst@[k] == vals@[front + k],
            forall|k: int| n <= k < dst@.len() ==> dst@[k] == old(dst)@[k],
        decreases n - i,
    {
        dst[i] = vals[front + i];
        i = i + 1;
    }
    assert(dst@.subrange(0, n as int) =~= vals@.subrange(front as int, front + n));
    assert(dst@.subrange(n as int, old(dst)@.len() as int) =~= old(dst)@.subrange(
        n as int,
        old(dst)@.len() as int,
    ));
    n
}

} // verus!
