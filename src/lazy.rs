//! The lazy engine: chains of set operations that leave the storage unsorted and with
//! duplicates, and a single repair at the end.
//!
//! A bitmap dropped while lazy is simply freed: its storage is plain memory and needs no
//! cleanup.
use vstd::prelude::*;
use crate::bitmap::{sym_diff, Bitmap};
use crate::sorted::{
    lemma_concat_to_set, lemma_filter_to_set, lemma_sorted_unique, strictly_sorted,
};

verus! {

/// A handle on a bitmap in lazy mode, for the duration of `Bitmap::lazy_batch`.
///
/// The handle holds the storage of the borrowed bitmap while the batch runs; the bitmap gets it
/// back, repaired, when the batch ends.
pub struct LazyBitmap<'a> {
    bitmap: Bitmap,
    borrowed: std::marker::PhantomData<&'a mut Bitmap>,
}

impl<'a> LazyBitmap<'a> {
    /// The storage, in the order it is held.
    pub closed spec fn raw(&self) -> Seq<u32> {
        self.bitmap.raw()
    }

    /// Becomes the union with `other`.
    ///
    /// `force_bitsets` asks for a dense form of the result; this storage has a single form, so
    /// the hint changes nothing.
    #[allow(unused_variables)]
    pub fn or_inplace(&mut self, other: &Bitmap, force_bitsets: bool) -> (r: &mut Self)
        ensures
            r.raw() == old(self).raw() + other.raw(),
            *final(self) == *final(r),
    {
        self.bitmap.lazy_or(other);
        self
    }

    /// Becomes the symmetric difference with `other`.
    pub fn xor_inplace(&mut self, other: &Bitmap) -> (r: &mut Self)
        ensures
            r.raw() == lazy_xor_storage(old(self).raw(), other.raw()),
            *final(self) == *final(r),
    {
        self.bitmap.lazy_xor(other);
        self
    }

    /// Whether no value is held.
    pub fn is_empty(&self) -> (r: bool)
        ensures
            r == (self.raw().to_set() == Set::<u32>::empty()),
    {
        self.bitmap.is_empty()
    }
}

impl Bitmap {
    /// Runs `f` on a lazy handle over this bitmap, then repairs it, and returns what `f`
    /// returned.
    ///
    /// The bitmap ends normal, holding what the handle held when `f` returned.
    pub fn lazy_batch<F, O>(&mut self, f: F) -> (r: O) where F: FnOnce(&mut LazyBitmap<'_>) -> O
        requires
            old(self).is_normal(),
            forall|h: &mut LazyBitmap| h.raw() == old(self).raw() ==> f.requires((h,)),
        ensures
            final(self).is_normal(),
            exists|h: &mut LazyBitmap|
                h.raw() == old(self).raw() && f.ensures((h,), r)
                    && final(self)@ == final(h).raw().to_set(),
    {
        let mut taken = Bitmap::create();
        std::mem::swap(self, &mut taken);
        let mut lazy = LazyBitmap { bitmap: taken, borrowed: std::marker::PhantomData };
        assert(lazy.raw() == old(self).raw());
        let result = f(&mut lazy);
        let mut bitmap = lazy.bitmap;
        bitmap.repair();
        *self = bitmap;
        result
    }

    /// Puts this bitmap in lazy mode.
    pub fn into_lazy(self) -> (r: LazyOwnedBitmap)
        ensures
            r.raw() == self.raw(),
    {
        LazyOwnedBitmap { bitmap: self }
    }
}

/// A bitmap in lazy mode, owned: only lazy operations are offered until `into_inner`.
#[derive(Clone, Debug)]
pub struct LazyOwnedBitmap {
    bitmap: Bitmap,
}

impl View for LazyOwnedBitmap {
    type V = Set<u32>;

    /// The elements held.
    open spec fn view(&self) -> Set<u32> {
        self.raw().to_set()
    }
}

impl LazyOwnedBitmap {
    /// The storage, in the order it is held.
    pub closed spec fn raw(&self) -> Seq<u32> {
        self.bitmap.raw()
    }

    /// An empty bitmap in lazy mode.
    pub fn create() -> (r: Self)
        ensures
            r.raw() == Seq::<u32>::empty(),
            r@ == Set::<u32>::empty(),
    {
        let r = LazyOwnedBitmap { bitmap: Bitmap::create() };
        assert(r.raw() =~= Seq::<u32>::empty());
        r
    }

    /// Becomes the union with `other`. `force_bitsets` is a representation hint with no
    /// effect here.
    #[allow(unused_variables)]
    pub fn or_inplace(&mut self, other: &Bitmap, force_bitsets: bool) -> (r: &mut Self)
        ensures
            r.raw() == old(self).raw() + other.raw(),
            *final(self) == *final(r),
    {
        self.bitmap.lazy_or(other);
        self
    }

    /// Becomes the union with `other`, taking its storage; `other` is left empty.
    #[allow(unused_variables)]
    pub fn or_inplace_owned(&mut self, other: &mut Bitmap, force_bitsets: bool) -> (r: &mut Self)
        ensures
            r.raw() == old(self).raw() + old(other).raw(),
            final(other).is_normal(),
            final(other)@ == Set::<u32>::empty(),
            *final(self) == *final(r),
    {
        self.bitmap.lazy_or_owned(other);
        assert(other@ =~= Set::<u32>::empty());
        self
    }

    /// Inserts one value.
    pub fn add(&mut self, element: u32)
        ensures
            final(self).raw() == old(self).raw().push(element),
    {
        self.bitmap.lazy_add(element);
    }

    /// Repairs the storage and hands back the bitmap in normal mode, with the same elements.
    pub fn into_inner(self) -> (r: Bitmap)
        ensures
            r.is_normal(),
            r@ == self@,
    {
        let mut bitmap = self.bitmap;
        bitmap.repair();
        bitmap
    }

    /// Whether no value is held.
    pub fn is_empty(&self) -> (r: bool)
        ensures
            r == (self@ == Set::<u32>::empty()),
    {
        self.bitmap.is_empty()
    }
}

impl<'a, 'b> std::ops::BitOrAssign<&'b Bitmap> for LazyBitmap<'a> {
    /// Becomes the union with `other`.
    fn bitor_assign(&mut self, other: &'b Bitmap)
        ensures
            final(self).raw() == old(self).raw() + other.raw(),
    {
        self.or_inplace(other, false);
    }
}

impl<'a, 'b> std::ops::BitXorAssign<&'b Bitmap> for LazyBitmap<'a> {
    /// Becomes the symmetric difference with `other`.
    fn bitxor_assign(&mut self, other: &'b Bitmap)
        ensures
            final(self).raw() == lazy_xor_storage(old(self).raw(), other.raw()),
    {
        self.xor_inplace(other);
    }
}

impl<'a, 'b> std::ops::SubAssign<&'b Bitmap> for LazyBitmap<'a> {
    /// Becomes the difference with `other`.
    fn sub_assign(&mut self, other: &'b Bitmap)
        ensures
            final(self).raw() == lazy_andnot_storage(old(self).raw(), other.raw()),
    {
        self.bitmap.lazy_andnot(other);
    }
}

impl<'b> std::ops::BitOrAssign<&'b Bitmap> for LazyOwnedBitmap {
    /// Becomes the union with `other`.
    fn bitor_assign(&mut self, other: &'b Bitmap)
        ensures
            final(self).raw() == old(self).raw() + other.raw(),
    {
        self.or_inplace(other, false);
    }
}

impl std::ops::BitOrAssign<Bitmap> for LazyOwnedBitmap {
    /// Becomes the union with `other`, taking its storage.
    fn bitor_assign(&mut self, other: Bitmap)
        ensures
            final(self).raw() == old(self).raw() + other.raw(),
    {
        let mut other = other;
        self.or_inplace_owned(&mut other, false);
    }
}

impl<'b> std::ops::BitOrAssign<&'b LazyOwnedBitmap> for LazyOwnedBitmap {
    /// Becomes the union with another lazy bitmap.
    fn bitor_assign(&mut self, other: &'b LazyOwnedBitmap)
        ensures
            final(self).raw() == old(self).raw() + other.raw(),
    {
        self.bitmap.lazy_or(&other.bitmap);
    }
}

impl std::ops::BitOrAssign<LazyOwnedBitmap> for LazyOwnedBitmap {
    /// Becomes the union with another lazy bitmap, taking its storage.
    fn bitor_assign(&mut self, other: LazyOwnedBitmap)
        ensures
            final(self).raw() == old(self).raw() + other.raw(),
    {
        let mut other = other;
        self.bitmap.lazy_or_owned(&mut other.bitmap);
    }
}

impl<'a, 'b> std::ops::BitAnd<&'a LazyOwnedBitmap> for &'b LazyOwnedBitmap {
    type Output = Bitmap;

    /// A new normal bitmap holding the intersection of two lazy bitmaps.
    fn bitand(self, other: &'a LazyOwnedBitmap) -> (r: Bitmap)
        ensures
            r.is_normal(),
            r@ == self@.intersect(other@),
    {
        self.bitmap.lazy_and(&other.bitmap)
    }
}

impl<'a, 'b> vstd::std_specs::ops::BitAndSpecImpl<&'a LazyOwnedBitmap> for &'b LazyOwnedBitmap {
    /// The result is described by the `ensures` of `bitand`, not by a spec function.
    open spec fn obeys_bitand_spec() -> bool {
        false
    }

    open spec fn bitand_req(self, other: &'a LazyOwnedBitmap) -> bool {
        true
    }

    open spec fn bitand_spec(self, other: &'a LazyOwnedBitmap) -> Bitmap {
        arbitrary()
    }
}

impl<'b> std::ops::SubAssign<&'b Bitmap> for LazyOwnedBitmap {
    /// Becomes the difference with `other`.
    fn sub_assign(&mut self, other: &'b Bitmap)
        ensures
            final(self).raw() == lazy_andnot_storage(old(self).raw(), other.raw()),
    {
        self.bitmap.lazy_andnot(other);
    }
}

/// The storage after a lazy symmetric difference with a bitmap whose storage is `other`.
pub open spec fn lazy_xor_storage(s: Seq<u32>, other: Seq<u32>) -> Seq<u32> {
    s.filter(|x: u32| !other.to_set().contains(x)) + other.filter(
        |x: u32| !s.to_set().contains(x),
    )
}

/// The storage after a lazy difference with a bitmap whose storage is `other`.
pub open spec fn lazy_andnot_storage(s: Seq<u32>, other: Seq<u32>) -> Seq<u32> {
    s.filter(|x: u32| !other.to_set().contains(x))
}

/// One step of a chain of set operations, with the storage of its operand.
pub enum SetStep {
    Union(Seq<u32>),
    SymmetricDifference(Seq<u32>),
    Difference(Seq<u32>),
}

/// The storage after a chain of lazy steps.
pub open spec fn lazy_chain(s: Seq<u32>, steps: Seq<SetStep>) -> Seq<u32>
    decreases steps.len(),
{
    if steps.len() == 0 {
        s
    } else {
        let next = match steps[0] {
            SetStep::Union(o) => s + o,
            SetStep::SymmetricDifference(o) => lazy_xor_storage(s, o),
            SetStep::Difference(o) => lazy_andnot_storage(s, o),
        };
        lazy_chain(next, steps.drop_first())
    }
}

/// The set after a chain of eager steps.
pub open spec fn eager_chain(s: Set<u32>, steps: Seq<SetStep>) -> Set<u32>
    decreases steps.len(),
{
    if steps.len() == 0 {
        s
    } else {
        let next = match steps[0] {
            SetStep::Union(o) => s.union(o.to_set()),
            SetStep::SymmetricDifference(o) => sym_diff(s, o.to_set()),
            SetStep::Difference(o) => s.difference(o.to_set()),
        };
        eager_chain(next, steps.drop_first())
    }
}

/// Running a chain of union, symmetric-difference and difference steps lazily and then
/// repairing gives exactly the storage of the normal bitmap that the same steps give eagerly,
/// in the same order: the repaired storage is strictly increasing and holds the eager result.
pub proof fn lemma_lazy_matches_eager(start: Seq<u32>, steps: Seq<SetStep>, repaired: Seq<u32>, eager: Seq<u32>)
    requires
        strictly_sorted(repaired),
        repaired.to_set() == lazy_chain(start, steps).to_set(),
        strictly_sorted(eager),
        eager.to_set() == eager_chain(start.to_set(), steps),
    ensures
        repaired == eager,
{
    lemma_chain_sets(start, steps);
    lemma_sorted_unique(repaired, eager);
}

/// The elements of a lazily run chain are those of the eager chain.
pub proof fn lemma_chain_sets(start: Seq<u32>, steps: Seq<SetStep>)
    ensures
        lazy_chain(start, steps).to_set() == eager_chain(start.to_set(), steps),
    decreases steps.len(),
{
    if steps.len() > 0 {
        let next = match steps[0] {
            SetStep::Union(o) => start + o,
            SetStep::SymmetricDifference(o) => lazy_xor_storage(start, o),
            SetStep::Difference(o) => lazy_andnot_storage(start, o),
        };
        match steps[0] {
            SetStep::Union(o) => {
                lemma_concat_to_set(start, o);
            },
            SetStep::SymmetricDifference(o) => {
                let p = |x: u32| !o.to_set().contains(x);
                let q = |x: u32| !start.to_set().contains(x);
                lemma_concat_to_set(start.filter(p), o.filter(q));
                lemma_filter_to_set(start, p);
                lemma_filter_to_set(o, q);
                assert(next.to_set() =~= sym_diff(start.to_set(), o.to_set()));
            },
            SetStep::Difference(o) => {
                let p = |x: u32| !o.to_set().contains(x);
                lemma_filter_to_set(start, p);
                assert(next.to_set() =~= start.to_set().difference(o.to_set()));
            },
        }
        lemma_chain_sets(next, steps.drop_first());
    }
}

} // verus!
