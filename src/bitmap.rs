//! The bitmap: a set of `u32` values held as a vector.
//!
//! A bitmap is normal when its vector is strictly increasing; every public way of obtaining a
//! `Bitmap` yields a normal one. The lazy engine lets the vector run out of order and hold
//! duplicates until it is repaired.
use vstd::prelude::*;
use crate::sorted::{
    lemma_filter_to_set, lemma_sorted_len, normalize, sorted_contains, sorted_insert,
    strictly_sorted,
};

verus! {

broadcast use vstd::seq_lib::group_seq_properties, vstd::seq_lib::group_filter_ensures;

#[derive(Clone, Debug)]
pub struct Bitmap {
    pub(crate) vals: Vec<u32>,
}

impl View for Bitmap {
    type V = Set<u32>;

    /// The elements held.
    open spec fn view(&self) -> Set<u32> {
        self.raw().to_set()
    }
}

/// The values `start <= x < end`.
pub open spec fn range_set(start: u32, end: u32) -> Set<u32> {
    Set::new(|x: u32| start <= x < end)
}

/// The elements of `a` that are not in `b`, together with those of `b` that are not in `a`.
pub open spec fn sym_diff(a: Set<u32>, b: Set<u32>) -> Set<u32> {
    a.difference(b).union(b.difference(a))
}

impl Bitmap {
    /// The storage, in the order it is held.
    pub open(crate) spec fn raw(&self) -> Seq<u32> {
        self.vals@
    }

    /// Normal mode: the storage is strictly increasing.
    pub open spec fn is_normal(&self) -> bool {
        strictly_sorted(self.raw())
    }

    /// An empty bitmap.
    pub fn create() -> (r: Bitmap)
        ensures
            r.is_normal(),
            r@ == Set::<u32>::empty(),
            r.raw() == Seq::<u32>::empty(),
    {
        let r = Bitmap { vals: Vec::new() };
        assert(r.raw() =~= Seq::<u32>::empty());
        assert(r@ =~= Set::<u32>::empty());
        r
    }

    /// A bitmap holding the given values; order and duplicates do not matter.
    pub fn of(elems: &[u32]) -> (r: Bitmap)
        ensures
            r.is_normal(),
            r@ == elems@.to_set(),
    {
        Bitmap { vals: normalize(elems) }
    }

    /// A bitmap holding the values of a half-open range.
    pub fn from_range(range: std::ops::Range<u32>) -> (r: Bitmap)
        ensures
            r.is_normal(),
            r@ == range_set(range.start, range.end),
    {
        let start = range.start;
        let end = range.end;
        let mut vals: Vec<u32> = Vec::new();
        let mut x: u32 = start;
        while x < end
            invariant
                start <= x,
                x == start || x <= end,
                vals@.len() == x - start,
                forall|i: int| 0 <= i < vals@.len() ==> vals@[i] == start + i,
            decreases end - x,
        {
            vals.push(x);
            x = x + 1;
        }
        let r = Bitmap { vals };
        assert(strictly_sorted(r.raw()));
        assert forall|y: u32| r@.contains(y) <==> range_set(start, end).contains(y) by {
            if start <= y < end {
                assert(r.raw()[y - start] == y);
            }
            if r.raw().contains(y) {
                let k = choose|k: int| 0 <= k < r.raw().len() && r.raw()[k] == y;
                assert(r.raw()[k] == start + k);
            }
        }
        assert(r@ =~= range_set(range.start, range.end));
        r
    }

    /// Inserts one value.
    pub fn add(&mut self, x: u32)
        requires
            old(self).is_normal(),
        ensures
            final(self).is_normal(),
            final(self)@ == old(self)@.insert(x),
    {
        sorted_insert(&mut self.vals, x);
    }

    /// Whether the value is held.
    pub fn contains(&self, x: u32) -> (r: bool)
        requires
            self.is_normal(),
        ensures
            r == self@.contains(x),
    {
        sorted_contains(self.vals.as_slice(), x)
    }

    /// The number of values held.
    pub fn cardinality(&self) -> (r: u64)
        requires
            self.is_normal(),
        ensures
            r == self@.len(),
    {
        proof {
            lemma_sorted_len(self.raw());
        }
        self.vals.len() as u64
    }

    /// Whether no value is held. This holds in lazy mode too.
    pub fn is_empty(&self) -> (r: bool)
        ensures
            r == (self@ == Set::<u32>::empty()),
    {
        if self.vals.len() == 0 {
            assert(self@ =~= Set::<u32>::empty());
            true
        } else {
            assert(self@.contains(self.raw()[0]));
            false
        }
    }

    /// The values held, in ascending order.
    pub fn to_vec(&self) -> (r: Vec<u32>)
        requires
            self.is_normal(),
        ensures
            strictly_sorted(r@),
            r@.to_set() == self@,
    {
        self.vals.clone()
    }

    /// Restores normal mode: sorts the storage and drops duplicates, keeping the elements.
    /// A normal bitmap is left exactly as it was.
    pub fn repair(&mut self)
        ensures
            final(self).is_normal(),
            final(self)@ == old(self)@,
            old(self).is_normal() ==> final(self).raw() == old(self).raw(),
    {
        self.vals = normalize(self.vals.as_slice());
    }

    /// Becomes the union with `other`.
    pub fn or_inplace(&mut self, other: &Bitmap)
        requires
            old(self).is_normal(),
            other.is_normal(),
        ensures
            final(self).is_normal(),
            final(self)@ == old(self)@.union(other@),
    {
        let mut j: usize = 0;
        while j < other.vals.len()
            invariant
                j <= other.raw().len(),
                self.is_normal(),
                self@ == old(self)@.union(other.raw().subrange(0, j as int).to_set()),
            decreases other.raw().len() - j,
        {
            self.add(other.vals[j]);
            assert(other.raw().subrange(0, j + 1) =~= other.raw().subrange(0, j as int).push(
                other.raw()[j as int],
            ));
            assert(self@ =~= old(self)@.union(other.raw().subrange(0, j + 1).to_set()));
            j = j + 1;
        }
        assert(other.raw().subrange(0, j as int) =~= other.raw());
    }

    /// Keeps the elements that `keep_in` holds (`keep == true`) or does not hold
    /// (`keep == false`).
    pub(crate) fn filter_by(&mut self, keep_in: &Bitmap, keep: bool)
        requires
            keep_in.is_normal(),
        ensures
            final(self).raw() == old(self).raw().filter(|x: u32| keep_in@.contains(x) == keep),
            old(self).is_normal() ==> final(self).is_normal(),
            final(self)@ == old(self)@.filter(|x: u32| keep_in@.contains(x) == keep),
    {
        let ghost p = |x: u32| keep_in@.contains(x) == keep;
        let ghost start = self.raw();
        let mut kept: Vec<u32> = Vec::new();
        let mut i: usize = 0;
        while i < self.vals.len()
            invariant
                i <= start.len(),
                self.raw() == start,
                keep_in.is_normal(),
                p == (|x: u32| keep_in@.contains(x) == keep),
                kept@ == start.subrange(0, i as int).filter(p),
                strictly_sorted(start) ==> strictly_sorted(kept@),
                strictly_sorted(start) ==> forall|k: int|
                    0 <= k < kept@.len() && i < start.len() ==> kept@[k] < start[i as int],
            decreases start.len() - i,
        {
            let x = self.vals[i];
            assert(start.subrange(0, i + 1).drop_last() =~= start.subrange(0, i as int));
            proof {
                reveal(Seq::filter);
                let s1 = start.subrange(0, i + 1);
                assert(s1.last() == x);
                assert(p(x) == (keep_in@.contains(x) == keep));
                assert(s1.filter(p) == if p(x) {
                    s1.drop_last().filter(p).push(x)
                } else {
                    s1.drop_last().filter(p)
                });
            }
            if keep_in.contains(x) == keep {
                kept.push(x);
            }
            i = i + 1;
        }
        assert(start.subrange(0, start.len() as int) =~= start);
        self.vals = kept;
        proof {
            lemma_filter_to_set(start, p);
        }
    }

    /// Becomes the difference with `other`.
    pub fn andnot_inplace(&mut self, other: &Bitmap)
        requires
            old(self).is_normal(),
            other.is_normal(),
        ensures
            final(self).is_normal(),
            final(self)@ == old(self)@.difference(other@),
    {
        self.filter_by(other, false);
        assert(self@ =~= old(self)@.difference(other@));
    }

    /// Becomes the intersection with `other`.
    pub fn and_inplace(&mut self, other: &Bitmap)
        requires
            old(self).is_normal(),
            other.is_normal(),
        ensures
            final(self).is_normal(),
            final(self)@ == old(self)@.intersect(other@),
    {
        self.filter_by(other, true);
        assert(self@ =~= old(self)@.intersect(other@));
    }

    /// Becomes the symmetric difference with `other`.
    pub fn xor_inplace(&mut self, other: &Bitmap)
        requires
            old(self).is_normal(),
            other.is_normal(),
        ensures
            final(self).is_normal(),
            final(self)@ == sym_diff(old(self)@, other@),
    {
        let mut rest = other.clone_bitmap();
        rest.filter_by(self, false);
        self.filter_by(other, false);
        self.or_inplace(&rest);
        assert(self@ =~= sym_diff(old(self)@, other@));
    }

    /// Lazy union: the storage of `other` is appended, out of order and with duplicates.
    pub(crate) fn lazy_or(&mut self, other: &Bitmap)
        ensures
            final(self).raw() == old(self).raw() + other.raw(),
    {
        let mut copy = other.vals.clone();
        self.vals.append(&mut copy);
    }

    /// Lazy union that takes the storage of `other`, which is left empty.
    pub(crate) fn lazy_or_owned(&mut self, other: &mut Bitmap)
        ensures
            final(self).raw() == old(self).raw() + old(other).raw(),
            final(other).raw() == Seq::<u32>::empty(),
    {
        self.vals.append(&mut other.vals);
    }

    /// Lazy symmetric difference: the elements of `other` held are dropped, and those of
    /// `other` not held are appended.
    pub(crate) fn lazy_xor(&mut self, other: &Bitmap)
        ensures
            final(self).raw() == old(self).raw().filter(|x: u32| !other@.contains(x)) + other.raw().filter(
                |x: u32| !old(self)@.contains(x),
            ),
    {
        let held = Bitmap { vals: normalize(self.vals.as_slice()) };
        let key = Bitmap { vals: normalize(other.vals.as_slice()) };
        let mut fresh = other.clone_bitmap();
        fresh.filter_by(&held, false);
        self.filter_by(&key, false);
        self.vals.append(&mut fresh.vals);
        assert((|x: u32| held@.contains(x) == false) == (|x: u32| !old(self)@.contains(x)));
        assert((|x: u32| key@.contains(x) == false) == (|x: u32| !other@.contains(x)));
    }

    /// Lazy difference: the elements of `other` are dropped from the storage.
    pub(crate) fn lazy_andnot(&mut self, other: &Bitmap)
        ensures
            final(self).raw() == old(self).raw().filter(|x: u32| !other@.contains(x)),
    {
        let key = Bitmap { vals: normalize(other.vals.as_slice()) };
        self.filter_by(&key, false);
        assert((|x: u32| key@.contains(x) == false) == (|x: u32| !other@.contains(x)));
    }

    /// Lazy insertion: the value is appended.
    pub(crate) fn lazy_add(&mut self, x: u32)
        ensures
            final(self).raw() == old(self).raw().push(x),
    {
        self.vals.push(x);
    }

    /// Intersection of two bitmaps in any mode; the result is normal.
    pub(crate) fn lazy_and(&self, other: &Bitmap) -> (r: Bitmap)
        ensures
            r.is_normal(),
            r@ == self@.intersect(other@),
    {
        let other_sorted = Bitmap { vals: normalize(other.vals.as_slice()) };
        let mut r = self.clone_bitmap();
        r.filter_by(&other_sorted, true);
        r.repair();
        assert(r@ =~= self@.intersect(other@));
        r
    }

    /// A new bitmap holding the intersection.
    pub fn and(&self, other: &Bitmap) -> (r: Bitmap)
        requires
            self.is_normal(),
            other.is_normal(),
        ensures
            r.is_normal(),
            r@ == self@.intersect(other@),
    {
        let mut r = self.clone_bitmap();
        r.and_inplace(other);
        r
    }

    /// A copy with the same storage.
    pub(crate) fn clone_bitmap(&self) -> (r: Bitmap)
        ensures
            r.raw() == self.raw(),
    {
        Bitmap { vals: self.vals.clone() }
    }
}

impl PartialEq for Bitmap {
    fn eq(&self, other: &Bitmap) -> (r: bool) {
        if self.vals.len() != other.vals.len() {
            return false;
        }
        let mut i: usize = 0;
        while i < self.vals.len()
            invariant
                i <= self.raw().len(),
                self.raw().len() == other.raw().len(),
                forall|k: int| 0 <= k < i ==> self.raw()[k] == other.raw()[k],
            decreases self.raw().len() - i,
        {
            if self.vals[i] != other.vals[i] {
                return false;
            }
            i = i + 1;
        }
        assert(self.raw() =~= other.raw());
        true
    }
}

impl vstd::std_specs::cmp::PartialEqSpecImpl for Bitmap {
    open spec fn obeys_eq_spec() -> bool {
        true
    }

    open spec fn eq_spec(&self, other: &Bitmap) -> bool {
        self.raw() == other.raw()
    }
}

impl Eq for Bitmap {
}

} // verus!
