//! A writable view of a sequence that is stored in two consecutive parts.
//!
//! Each part is a `&mut [T]`; what a caller writes through a value of this
//! module reaches the parts it was made from. The contracts say so through
//! the final values of the parts (`final(..)`), which is why the two parts
//! are public fields.
use vstd::prelude::*;
use crate::bislice::{
    format_parts, format_tuple, Bound, DoubleSlice, bound_start, bound_end, bounds_fit, front_step, back_step, after_calls,
    last_call_item, count_fronts, lemma_run_of_calls,
};

verus! {

/// Two mutable slices read as one sequence: all of `start`, then all of `end`.
#[derive(PartialEq, Eq, PartialOrd, Ord, Hash)]
pub struct DoubleSliceMut<'a, T> {
    pub start: &'a mut [T],
    pub end: &'a mut [T],
}

impl<'a, T> DoubleSliceMut<'a, T> {
    /// The current elements of the first part.
    pub open spec fn first(&self) -> Seq<T> {
        self.start@
    }

    /// The current elements of the second part.
    pub open spec fn second(&self) -> Seq<T> {
        self.end@
    }

    /// The current elements, first part then second part.
    pub open spec fn view(&self) -> Seq<T> {
        self.first() + self.second()
    }

    /// The length can be counted in a `usize`.
    pub open spec fn len_fits(&self) -> bool {
        self.first().len() + self.second().len() <= usize::MAX
    }
}


/// Copies `src` into `dest`, element by element.
fn copy_into<T: Copy>(dest: &mut [T], src: &[T])
    requires
        old(dest)@.len() == src@.len(),
    ensures
        final(dest)@ == src@,
{
    let n = src.len();
    let mut i: usize = 0;
    while i < n
        invariant
            n == src@.len(),
            dest@.len() == n,
            i <= n,
            forall|j: int| 0 <= j < i ==> dest@[j] == src@[j],
        decreases n - i,
    {
        dest[i] = src[i];
        i = i + 1;
    }
    assert(dest@ =~= src@);
}

impl<'a, T> Default for DoubleSliceMut<'a, T> {
    fn default() -> (r: Self)
        ensures
            r.first() == Seq::<T>::empty(),
            r.second() == Seq::<T>::empty(),
    {
        DoubleSliceMut { start: &mut [], end: &mut [] }
    }
}

impl<'a, T> DoubleSliceMut<'a, T> {
    pub fn new(start: &'a mut [T], end: &'a mut [T]) -> (r: Self)
        ensures
            r.first() == old(start)@,
            r.second() == old(end)@,
            final(r.start)@ == final(start)@,
            final(r.end)@ == final(end)@,
    {
        DoubleSliceMut { start, end }
    }

    pub fn from_single(slice: &'a mut [T]) -> (r: Self)
        ensures
            r.first() == old(slice)@,
            r.second() == Seq::<T>::empty(),
            final(r.start)@ == final(slice)@,
            final(r.end)@ == Seq::<T>::empty(),
    {
        Self::new(slice, &mut [])
    }

    pub fn into_mut_slices(self) -> (r: (&'a mut [T], &'a mut [T]))
        ensures
            r.0@ == self.first(),
            r.1@ == self.second(),
            final(r.0)@ == final(self.start)@,
            final(r.1)@ == final(self.end)@,
    {
        (self.start, self.end)
    }

    /// The parts written with `{:?}`, one after the other.
    pub fn debug_string(&self) -> String
        where
            T: core::fmt::Debug,
    {
        format_parts(&*self.start, &*self.end)
    }

    /// A shorter-lived writable view of the same parts.
    pub fn reborrow_mut(&mut self) -> (r: DoubleSliceMut<'_, T>)
        ensures
            r.first() == old(self).first(),
            r.second() == old(self).second(),
            final(self).first() == final(r.start)@,
            final(self).second() == final(r.end)@,
            final(final(self).start)@ == final(old(self).start)@,
            final(final(self).end)@ == final(old(self).end)@,
    {
        DoubleSliceMut { start: &mut *self.start, end: &mut *self.end }
    }

    /// A read-only view of the same parts, for as long as `self` is borrowed.
    pub fn reborrow(&self) -> (r: DoubleSlice<'_, T>)
        ensures
            r.first() == self.first(),
            r.second() == self.second(),
    {
        DoubleSlice::new(&*self.start, &*self.end)
    }

    /// Gives up writing: a read-only view of the same parts for all of `'a`.
    pub fn into_ref(self) -> (r: DoubleSlice<'a, T>)
        ensures
            r.first() == self.first(),
            r.second() == self.second(),
            final(self.start)@ == self.first(),
            final(self.end)@ == self.second(),
    {
        let (start, end) = self.into_mut_slices();
        DoubleSlice::new(start, end)
    }

    /// The element at `index`, to read or write, or `None` past the end.
    pub fn get_mut(self, index: usize) -> (r: Option<&'a mut T>)
        ensures
            ({
                let a = self.first().len() as int;
                match r {
                    Some(x) => {
                        &&& index < self@.len()
                        &&& *x == self@[index as int]
                        &&& index < a ==> final(self.start)@ == self.first().update(index as int, *final(x))
                            && final(self.end)@ == self.second()
                        &&& index >= a ==> final(self.end)@ == self.second().update(index - a, *final(x))
                            && final(self.start)@ == self.first()
                    },
                    None => {
                        &&& index >= self@.len()
                        &&& final(self.start)@ == self.first()
                        &&& final(self.end)@ == self.second()
                    },
                }
            }),
    {
        let (start, end) = self.into_mut_slices();
        if index >= start.len() {
            let i = index - start.len();
            if i < end.len() {
                let (_, tail) = end.split_at_mut(i);
                tail.first_mut()
            } else {
                None
            }
        } else {
            let (_, tail) = start.split_at_mut(index);
            tail.first_mut()
        }
    }

    /// The elements in the range from `start` to `end`, writable, or `None`
    /// where the range is reversed or reaches past the end.
    #[verifier::rlimit(50)]
    pub fn slice_mut(self, start: Bound, end: Bound) -> (r: Option<Self>)
        requires
            self.len_fits(),
            bounds_fit(start, end),
        ensures
            end matches Bound::Included(n) && n >= self@.len() ==> r is None,
            end matches Bound::Excluded(n) && n > self@.len() ==> r is None,
            start matches Bound::Included(n) && n > self@.len() ==> r is None,
            start matches Bound::Excluded(n) && n >= self@.len() ==> r is None,
            start matches Bound::Included(i) ==> (end matches Bound::Excluded(j) ==> (i <= j
                <= self@.len() ==> (r matches Some(s) && s@ == self@.subrange(i as int, j as int)))),
            (start is Unbounded && end is Unbounded) ==> (r matches Some(s) && s@ == self@),
            ({
                let lo = bound_start(start);
                let hi = bound_end(end, self@.len() as int);
                let a = self.first().len() as int;
                let b = self.second().len() as int;
                let lo1 = vstd::math::min(lo, a);
                let hi1 = vstd::math::min(hi, a);
                let lo2 = vstd::math::max(lo, a) - a;
                let hi2 = vstd::math::max(hi, a) - a;
                &&& r is Some <==> lo <= hi <= self@.len()
                &&& r matches Some(s) ==> {
                    &&& s.first() == self.first().subrange(lo1, hi1)
                    &&& s.second() == self.second().subrange(lo2, hi2)
                    &&& s@ == self@.subrange(lo, hi)
                    &&& final(self.start)@ == self.first().subrange(0, lo1) + final(s.start)@
                        + self.first().subrange(hi1, a)
                    &&& final(self.end)@ == self.second().subrange(0, lo2) + final(s.end)@
                        + self.second().subrange(hi2, b)
                }
                &&& r is None ==> final(self.start)@ == self.first() && final(self.end)@ == self.second()
            }),
    {
        let this_len = self.reborrow().len();
        let (mut start_part, mut end_part) = self.into_mut_slices();
        let (start_idx, end_idx) = crate::bislice::normalize_range(start, end, this_len);
        let range_len = match end_idx.checked_sub(start_idx) {
            Some(n) => n,
            None => {
                return None;
            },
        };
        if start_idx >= start_part.len() {
            let k = start_idx - start_part.len();
            if k > end_part.len() {
                return None;
            }
            start_part = &mut [];
            let (_, tail) = end_part.split_at_mut(k);
            end_part = tail;
        } else {
            let (_, tail) = start_part.split_at_mut(start_idx);
            start_part = tail;
        }
        if range_len >= start_part.len() {
            let k = range_len - start_part.len();
            if k > end_part.len() {
                return None;
            }
            let (head, _) = end_part.split_at_mut(k);
            end_part = head;
        } else {
            end_part = &mut [];
            let (head, _) = start_part.split_at_mut(range_len);
            start_part = head;
        }
        let r = Self::new(start_part, end_part);
        proof {
            assert(r@ =~= self@.subrange(start_idx as int, end_idx as int));
        }
        Some(r)
    }

    /// Overwrites all elements with those of `source`, which must be just as
    /// long; `None`, and nothing written, where the lengths differ.
    pub fn copy_from_slice(self, source: DoubleSlice<'a, T>) -> (r: Option<()>)
        where
            T: Copy,
        requires
            self.len_fits(),
            source.len_fits(),
        ensures
            r is Some <==> self@.len() == source@.len(),
            r is Some ==> {
                &&& final(self.start)@ + final(self.end)@ == source@
                &&& final(self.start)@ == source@.subrange(0, self.first().len() as int)
                &&& final(self.end)@ == source@.subrange(
                    self.first().len() as int,
                    source@.len() as int,
                )
            },
            r is None ==> final(self.start)@ == self.first() && final(self.end)@ == self.second(),
    {
        if self.reborrow().len() != source.len() {
            return None;
        }
        let (src_start, src_end) = source.into_slices();
        let (dest_start, dest_end) = self.into_mut_slices();
        let src_split = src_start.len();
        let dest_split = dest_start.len();
        if src_split >= dest_split {
            let mid_len = src_split - dest_split;
            let (src_start, src_mid) = src_start.split_at(dest_split);
            let (dest_mid, dest_end) = dest_end.split_at_mut(mid_len);
            copy_into(dest_start, src_start);
            copy_into(dest_mid, src_mid);
            copy_into(dest_end, src_end);
        } else {
            let mid_len = dest_split - src_split;
            let (src_mid, src_end) = src_end.split_at(mid_len);
            let (dest_start, dest_mid) = dest_start.split_at_mut(src_split);
            copy_into(dest_start, src_start);
            copy_into(dest_mid, src_mid);
            copy_into(dest_end, src_end);
        }
        proof {
            assert(final(self.start)@ =~= source@.subrange(0, self.first().len() as int));
            assert(final(self.end)@ =~= source@.subrange(self.first().len() as int, source@.len() as int));
            assert(final(self.start)@ + final(self.end)@ =~= source@);
        }
        Some(())
    }

    /// Splits at index `mid` into two writable views: the first `mid`
    /// elements, then the rest.
    pub fn split_at(self, mid: usize) -> (r: Option<(Self, Self)>)
        ensures
            ({
                let a = self.first().len() as int;
                let b = self.second().len() as int;
                &&& r is Some <==> mid <= self@.len()
                &&& r matches Some((left, right)) ==> {
                    &&& left@ == self@.subrange(0, mid as int)
                    &&& right@ == self@.subrange(mid as int, self@.len() as int)
                    &&& left@ + right@ == self@
                    &&& mid < a ==> {
                        &&& left.first() == self.first().subrange(0, mid as int)
                        &&& left.second() == Seq::<T>::empty()
                        &&& right.first() == self.first().subrange(mid as int, a)
                        &&& right.second() == self.second()
                        &&& final(self.start)@ == final(left.start)@ + final(right.start)@
                        &&& final(self.end)@ == final(right.end)@
                    }
                    &&& mid >= a ==> {
                        &&& left.first() == self.first()
                        &&& left.second() == self.second().subrange(0, mid - a)
                        &&& right.first() == self.second().subrange(mid - a, b)
                        &&& right.second() == Seq::<T>::empty()
                        &&& final(self.start)@ == final(left.start)@
                        &&& final(self.end)@ == final(left.end)@ + final(right.start)@
                    }
                }
                &&& r is None ==> final(self.start)@ == self.first() && final(self.end)@ == self.second()
            }),
    {
        let (start, end) = self.into_mut_slices();
        if mid >= start.len() {
            let i = mid - start.len();
            if i <= end.len() {
                let (s, e) = end.split_at_mut(i);
                let r = (Self::new(start, s), Self::from_single(e));
                proof {
                    assert(r.0@ + r.1@ =~= self@);
                    assert(r.0@ =~= self@.subrange(0, mid as int));
                    assert(r.1@ =~= self@.subrange(mid as int, self@.len() as int));
                }
                Some(r)
            } else {
                None
            }
        } else {
            let (s, e) = start.split_at_mut(mid);
            let r = (Self::from_single(s), Self::new(e, end));
            proof {
                assert(r.0@ + r.1@ =~= self@);
                assert(r.0@ =~= self@.subrange(0, mid as int));
                assert(r.1@ =~= self@.subrange(mid as int, self@.len() as int));
            }
            Some(r)
        }
    }

    /// The first element, writable, and a writable view of the rest; `None`
    /// when empty.
    pub fn split_first(self) -> (r: Option<(&'a mut T, Self)>)
        ensures
            r is Some <==> self@.len() > 0,
            r matches Some((x, rest)) ==> {
                &&& *x == self@[0]
                &&& rest@ == self@.drop_first()
                &&& final(self.start)@ + final(self.end)@ == seq![*final(x)] + (final(rest.start)@
                    + final(rest.end)@)
                &&& self.first().len() > 0 ==> {
                    &&& rest.first() == self.first().drop_first()
                    &&& rest.second() == self.second()
                    &&& final(self.start)@ == seq![*final(x)] + final(rest.start)@
                    &&& final(self.end)@ == final(rest.end)@
                }
                &&& self.first().len() == 0 ==> {
                    &&& rest.first() == self.second().drop_first()
                    &&& rest.second() == Seq::<T>::empty()
                    &&& final(self.start)@ == self.first()
                    &&& final(self.end)@ == seq![*final(x)] + final(rest.start)@
                }
            },
            r is None ==> final(self.start)@ == self.first() && final(self.end)@ == self.second(),
    {
        let (start, end) = self.into_mut_slices();
        if start.len() > 0 {
            let (head, rem) = start.split_at_mut(1);
            match head.first_mut() {
                Some(x) => {
                    let rest = Self::new(rem, end);
                    proof {
                        assert(final(self.start)@ + final(self.end)@ =~= seq![*final(x)] + (final(rest.start)@ + final(rest.end)@));
                        assert(rest.first() =~= self.first().drop_first());
                        assert(rest@ =~= self@.drop_first());
                    }
                    Some((x, rest))
                },
                None => None,
            }
        } else if end.len() > 0 {
            let (head, rem) = end.split_at_mut(1);
            match head.first_mut() {
                Some(x) => {
                    let rest = Self::from_single(rem);
                    proof {
                        assert(final(rest.end)@.len() == 0);
                        assert(final(self.start)@ + final(self.end)@ =~= seq![*final(x)] + (final(rest.start)@ + final(rest.end)@));
                        assert(rest.first() =~= self.second().drop_first());
                        assert(rest@ =~= self@.drop_first());
                    }
                    Some((x, rest))
                },
                None => None,
            }
        } else {
            None
        }
    }

    /// The last element, writable, and a writable view of the rest; `None`
    /// when empty.
    pub fn split_last(self) -> (r: Option<(&'a mut T, Self)>)
        ensures
            r is Some <==> self@.len() > 0,
            r matches Some((x, rest)) ==> {
                &&& *x == self@.last()
                &&& rest@ == self@.drop_last()
                &&& final(self.start)@ + final(self.end)@ == (final(rest.start)@ + final(rest.end)@)
                    + seq![*final(x)]
                &&& self.second().len() > 0 ==> {
                    &&& rest.first() == self.first()
                    &&& rest.second() == self.second().drop_last()
                    &&& final(self.start)@ == final(rest.start)@
                    &&& final(self.end)@ == final(rest.end)@ + seq![*final(x)]
                }
                &&& self.second().len() == 0 ==> {
                    &&& rest.first() == self.first().drop_last()
                    &&& rest.second() == Seq::<T>::empty()
                    &&& final(self.start)@ == final(rest.start)@ + seq![*final(x)]
                    &&& final(self.end)@ == self.second()
                }
            },
            r is None ==> final(self.start)@ == self.first() && final(self.end)@ == self.second(),
    {
        let (start, end) = self.into_mut_slices();
        let b = end.len();
        let a = start.len();
        if b > 0 {
            let (rem, tail) = end.split_at_mut(b - 1);
            match tail.first_mut() {
                Some(x) => {
                    let r = (x, Self::new(start, rem));
                    proof {
                        assert(r.1.second() =~= self.second().drop_last());
                        assert(r.1@ =~= self@.drop_last());
                    }
                    Some(r)
                },
                None => None,
            }
        } else if a > 0 {
            let (rem, tail) = start.split_at_mut(a - 1);
            match tail.first_mut() {
                Some(x) => {
                    let r = (x, Self::from_single(rem));
                    proof {
                        assert(r.1.first() =~= self.first().drop_last());
                        assert(r.1@ =~= self@.drop_last());
                    }
                    Some(r)
                },
                None => None,
            }
        } else {
            None
        }
    }

    /// An iterator that hands out the elements for writing, from the first to
    /// the last.
    pub fn iter_mut(self) -> (r: IterMut<'a, T>)
        ensures
            r.first() == self.first(),
            r.second() == self.second(),
            final(r.start)@ == final(self.start)@,
            final(r.end)@ == final(self.end)@,
    {
        IterMut::from_slice(self)
    }
}


impl<'a, T> core::ops::Index<usize> for DoubleSliceMut<'a, T> {
    type Output = T;

    fn index(&self, index: usize) -> (r: &T)
        ensures
            *r == self@[index as int],
    {
        self.reborrow().get(index).expect("index out of bounds")
    }
}

impl<'a, T> vstd::std_specs::core::IndexSpecImpl<usize> for DoubleSliceMut<'a, T> {
    open spec fn index_req(&self, index: &usize) -> bool {
        *index < self@.len()
    }
}

/// A run of `next` and `next_back` calls on an [`IterMut`], in any order,
/// `f` of them from the front and `b` from the back. `cur` is what the places
/// hold when the run starts, and `fin` what they hold when the borrow ends
/// (`final(start)@ + final(end)@`), which is just as long. The contracts of
/// `next` and `next_back` move both the same way (`front_step`, `back_step`),
/// so while `f + b` is at most the length `n` the places left are positions
/// `f` to `n - b` of both, and each call hands out position `f` (from the
/// front) or `n - 1 - b` (from the back), counting the calls before it: the
/// place holds `cur` there, and what is written through it is `fin` there,
/// what the parts hold at that position in the end. Once the places are used
/// up, calls hand out nothing.
pub proof fn lemma_iter_mut_run<T>(cur: Seq<T>, fin: Seq<T>, calls: Seq<bool>)
    requires
        cur.len() == fin.len(),
    ensures
        ({
            let f = count_fronts(calls) as int;
            let b = calls.len() - f;
            let n = cur.len() as int;
            &&& f + b <= n ==> after_calls(cur, calls) == cur.subrange(f, n - b) && after_calls(
                fin,
                calls,
            ) == fin.subrange(f, n - b)
            &&& f + b >= n ==> after_calls(cur, calls).len() == 0 && after_calls(fin, calls).len()
                == 0
        }),
        calls.len() > 0 ==> ({
            let c = calls.drop_last();
            let f = count_fronts(c) as int;
            let b = c.len() - f;
            let n = cur.len() as int;
            let p = if calls.last() {
                f
            } else {
                n - 1 - b
            };
            &&& f + b < n ==> last_call_item(cur, calls) == Some(cur[p]) && last_call_item(fin, calls)
                == Some(fin[p])
            &&& f + b >= n ==> last_call_item(cur, calls) is None && last_call_item(fin, calls) is None
        }),
{
    lemma_run_of_calls(cur, calls);
    lemma_run_of_calls(fin, calls);
}

/// An iterator over a [`DoubleSliceMut`] that can be consumed from both ends.
/// The parts hold the elements not yet handed out.
pub struct IterMut<'a, T> {
    pub start: &'a mut [T],
    pub end: &'a mut [T],
}

impl<'a, T> IterMut<'a, T> {
    /// The current elements of the first part.
    pub open spec fn first(&self) -> Seq<T> {
        self.start@
    }

    /// The current elements of the second part.
    pub open spec fn second(&self) -> Seq<T> {
        self.end@
    }

    /// The elements not yet handed out.
    pub open spec fn view(&self) -> Seq<T> {
        self.first() + self.second()
    }

    /// The number of elements left can be counted in a `usize`.
    pub open spec fn len_fits(&self) -> bool {
        self.first().len() + self.second().len() <= usize::MAX
    }
}

impl<'a, T> Default for IterMut<'a, T> {
    fn default() -> (r: Self)
        ensures
            r.first() == Seq::<T>::empty(),
            r.second() == Seq::<T>::empty(),
    {
        IterMut { start: &mut [], end: &mut [] }
    }
}

impl<'a, T> IterMut<'a, T> {
    fn new(first: &'a mut [T], second: &'a mut [T]) -> (r: Self)
        ensures
            r.first() == old(first)@,
            r.second() == old(second)@,
            final(r.start)@ == final(first)@,
            final(r.end)@ == final(second)@,
    {
        IterMut { start: first, end: second }
    }

    fn from_slice(slice: DoubleSliceMut<'a, T>) -> (r: Self)
        ensures
            r.first() == slice.first(),
            r.second() == slice.second(),
            final(r.start)@ == final(slice.start)@,
            final(r.end)@ == final(slice.end)@,
    {
        let (first, second) = slice.into_mut_slices();
        Self::new(first, second)
    }

    /// The elements not yet handed out, as a writable view.
    pub fn into_slice(self) -> (r: DoubleSliceMut<'a, T>)
        ensures
            r.first() == self.first(),
            r.second() == self.second(),
            final(r.start)@ == final(self.start)@,
            final(r.end)@ == final(self.end)@,
    {
        DoubleSliceMut::new(self.start, self.end)
    }

    /// The parts not yet handed out, written as `IterMut(.., ..)` with `{:?}`.
    pub fn debug_string(&self) -> String
        where
            T: core::fmt::Debug,
    {
        format_tuple("IterMut", &*self.start, &*self.end)
    }

    /// The elements not yet handed out, read-only.
    pub fn as_ref(&self) -> (r: DoubleSlice<'_, T>)
        ensures
            r.first() == self.first(),
            r.second() == self.second(),
    {
        DoubleSlice::new(&*self.start, &*self.end)
    }

    /// Moves the parts out, leaving empty ones behind.
    fn take_parts(&mut self) -> (r: DoubleSliceMut<'a, T>)
        ensures
            r.first() == old(self).first(),
            r.second() == old(self).second(),
            final(r.start)@ == final(old(self).start)@,
            final(r.end)@ == final(old(self).end)@,
            final(self).first() == Seq::<T>::empty(),
            final(self).second() == Seq::<T>::empty(),
            final(final(self).start)@.len() == 0,
            final(final(self).end)@.len() == 0,
    {
        let mut s: &'a mut [T] = &mut [];
        let mut e: &'a mut [T] = &mut [];
        std::mem::swap(&mut s, &mut self.start);
        std::mem::swap(&mut e, &mut self.end);
        DoubleSliceMut::new(s, e)
    }

    /// Hands out the next element from the front, for writing.
    pub fn next(&mut self) -> (r: Option<&'a mut T>)
        ensures
            ({
                let a = old(self).first().len();
                let b = old(self).second().len();
                let fin0 = final(old(self).start)@ + final(old(self).end)@;
                let fin1 = final(final(self).start)@ + final(final(self).end)@;
                &&& r is Some <==> old(self)@.len() > 0
                &&& final(self)@ == front_step(old(self)@)
                &&& fin1 == front_step(fin0)
                &&& r matches Some(x) ==> {
                    &&& *x == old(self)@[0]
                    &&& *final(x) == fin0[0]
                    &&& a > 0 ==> {
                        &&& final(self).first() == old(self).first().drop_first()
                        &&& final(self).second() == old(self).second()
                        &&& final(old(self).start)@ == seq![*final(x)] + final(final(self).start)@
                        &&& final(old(self).end)@ == final(final(self).end)@
                    }
                    &&& a == 0 ==> {
                        &&& final(self).first() == old(self).first()
                        &&& final(self).second() == old(self).second().drop_first()
                        &&& final(old(self).start)@ == old(self).first()
                        &&& final(old(self).end)@ == seq![*final(x)] + final(final(self).end)@
                    }
                }
                &&& r is None ==> {
                    &&& final(self).first() == Seq::<T>::empty()
                    &&& final(self).second() == Seq::<T>::empty()
                    &&& final(old(self).start)@ == old(self).first()
                    &&& final(old(self).end)@ == old(self).second()
                }
            }),
    {
        let (start, end) = self.take_parts().into_mut_slices();
        if start.len() > 0 {
            let (head, rem) = start.split_at_mut(1);
            match head.first_mut() {
                Some(x) => {
                    self.start = rem;
                    self.end = end;
                    proof {
                        assert(final(self).first() =~= old(self).first().drop_first());
                        assert(final(self)@ =~= old(self)@.drop_first());
                    }
                    Some(x)
                },
                None => None,
            }
        } else if end.len() > 0 {
            let (head, rem) = end.split_at_mut(1);
            match head.first_mut() {
                Some(x) => {
                    self.end = rem;
                    proof {
                        assert(final(self).second() =~= old(self).second().drop_first());
                        assert(final(self)@ =~= old(self)@.drop_first());
                    }
                    Some(x)
                },
                None => None,
            }
        } else {
            None
        }
    }

    /// Skips `n` elements and hands out the one after them for writing, or
    /// `None` where fewer than `n + 1` are left; either way all that it
    /// passed over is gone, left as it was.
    pub fn nth(&mut self, n: usize) -> (r: Option<&'a mut T>)
        ensures
            ({
                let a = old(self).first().len() as int;
                let b = old(self).second().len() as int;
                let len = old(self)@.len() as int;
                let fin0 = final(old(self).start)@ + final(old(self).end)@;
                let fin1 = final(final(self).start)@ + final(final(self).end)@;
                &&& fin1 == fin0.subrange(vstd::math::min(n + 1, fin0.len() as int), fin0.len() as int)
                &&& r matches Some(x) ==> *final(x) == fin0[n as int]
                &&& r is Some <==> n < len
                &&& final(self).first() == old(self).first().subrange(vstd::math::min(n + 1, a), a)
                &&& final(self).second() == (if n < a {
                    old(self).second()
                } else {
                    old(self).second().subrange(vstd::math::min(n - a + 1, b), b)
                })
                &&& final(self)@ == old(self)@.subrange(vstd::math::min(n + 1, len), len)
                &&& r matches Some(x) ==> {
                    &&& *x == old(self)@[n as int]
                    &&& n < a ==> {
                        &&& final(old(self).start)@ == old(self).first().subrange(0, n as int)
                            + seq![*final(x)] + final(final(self).start)@
                        &&& final(old(self).end)@ == final(final(self).end)@
                    }
                    &&& n >= a ==> {
                        &&& final(old(self).start)@ == old(self).first()
                        &&& final(old(self).end)@ == old(self).second().subrange(0, n - a)
                            + seq![*final(x)] + final(final(self).end)@
                    }
                }
                &&& r is None ==> {
                    &&& final(old(self).start)@ == old(self).first()
                    &&& final(old(self).end)@ == old(self).second()
                }
            }),
    {
        let (start, end) = self.take_parts().into_mut_slices();
        let split = start.len();
        if n < split {
            let (_, tail) = start.split_at_mut(n);
            let (head, rem) = tail.split_at_mut(1);
            match head.first_mut() {
                Some(x) => {
                    self.start = rem;
                    self.end = end;
                    proof {
                        assert(final(self)@ =~= old(self)@.subrange(n + 1, old(self)@.len() as int));
                    }
                    Some(x)
                },
                None => None,
            }
        } else {
            let k = n - split;
            if k < end.len() {
                let (_, tail) = end.split_at_mut(k);
                let (head, rem) = tail.split_at_mut(1);
                match head.first_mut() {
                    Some(x) => {
                        self.end = rem;
                        proof {
                            assert(final(self).first() =~= old(self).first().subrange(split as int, split as int));
                            assert(final(self)@ =~= old(self)@.subrange(n + 1, old(self)@.len() as int));
                        }
                        Some(x)
                    },
                    None => None,
                }
            } else {
                proof {
                    assert(final(self).first() =~= old(self).first().subrange(split as int, split as int));
                    assert(final(self).second() =~= old(self).second().subrange(
                        old(self).second().len() as int, old(self).second().len() as int));
                    assert(final(self)@ =~= old(self)@.subrange(old(self)@.len() as int, old(self)@.len() as int));
                }
                None
            }
        }
    }

    /// Hands out the next element from the back, for writing.
    pub fn next_back(&mut self) -> (r: Option<&'a mut T>)
        ensures
            ({
                let a = old(self).first().len();
                let b = old(self).second().len();
                let fin0 = final(old(self).start)@ + final(old(self).end)@;
                let fin1 = final(final(self).start)@ + final(final(self).end)@;
                &&& r is Some <==> old(self)@.len() > 0
                &&& final(self)@ == back_step(old(self)@)
                &&& fin1 == back_step(fin0)
                &&& r matches Some(x) ==> {
                    &&& *x == old(self)@.last()
                    &&& *final(x) == fin0.last()
                    &&& b > 0 ==> {
                        &&& final(self).first() == old(self).first()
                        &&& final(self).second() == old(self).second().drop_last()
                        &&& final(old(self).start)@ == final(final(self).start)@
                        &&& final(old(self).end)@ == final(final(self).end)@ + seq![*final(x)]
                    }
                    &&& b == 0 ==> {
                        &&& final(self).first() == old(self).first().drop_last()
                        &&& final(self).second() == Seq::<T>::empty()
                        &&& final(old(self).start)@ == final(final(self).start)@ + seq![*final(x)]
                        &&& final(old(self).end)@ == old(self).second()
                    }
                }
                &&& r is None ==> {
                    &&& final(self).first() == Seq::<T>::empty()
                    &&& final(self).second() == Seq::<T>::empty()
                    &&& final(old(self).start)@ == old(self).first()
                    &&& final(old(self).end)@ == old(self).second()
                }
            }),
    {
        let parts = self.take_parts();
        match parts.split_last() {
            Some((x, rest)) => {
                self.start = rest.start;
                self.end = rest.end;
                Some(x)
            },
            None => None,
        }
    }

    /// Skips `n` elements from the back and hands out the one before them
    /// for writing, or `None` where fewer than `n + 1` are left; either way
    /// all that it passed over is gone, left as it was.
    pub fn nth_back(&mut self, n: usize) -> (r: Option<&'a mut T>)
        ensures
            ({
                let a = old(self).first().len() as int;
                let b = old(self).second().len() as int;
                let len = old(self)@.len() as int;
                let fin0 = final(old(self).start)@ + final(old(self).end)@;
                let fin1 = final(final(self).start)@ + final(final(self).end)@;
                &&& fin1 == fin0.subrange(0, vstd::math::max(fin0.len() - n - 1, 0))
                &&& r matches Some(x) ==> *final(x) == fin0[fin0.len() - 1 - n]
                &&& r is Some <==> n < len
                &&& final(self).second() == old(self).second().subrange(0, vstd::math::max(b - n - 1, 0))
                &&& final(self).first() == (if n < b {
                    old(self).first()
                } else {
                    old(self).first().subrange(0, vstd::math::max(a - (n - b) - 1, 0))
                })
                &&& final(self)@ == old(self)@.subrange(0, vstd::math::max(len - n - 1, 0))
                &&& r matches Some(x) ==> {
                    &&& *x == old(self)@[len - 1 - n]
                    &&& n < b ==> {
                        &&& final(old(self).start)@ == final(final(self).start)@
                        &&& final(old(self).end)@ == final(final(self).end)@ + seq![*final(x)]
                            + old(self).second().subrange(b - n, b)
                    }
                    &&& n >= b ==> {
                        &&& final(old(self).start)@ == final(final(self).start)@ + seq![*final(x)]
                            + old(self).first().subrange(a - (n - b), a)
                        &&& final(old(self).end)@ == old(self).second()
                    }
                }
                &&& r is None ==> {
                    &&& final(old(self).start)@ == old(self).first()
                    &&& final(old(self).end)@ == old(self).second()
                }
            }),
    {
        let (start, end) = self.take_parts().into_mut_slices();
        let rsplit = end.len();
        if n < rsplit {
            let (rem, tail) = end.split_at_mut(rsplit - 1 - n);
            let (head, _) = tail.split_at_mut(1);
            match head.first_mut() {
                Some(x) => {
                    self.start = start;
                    self.end = rem;
                    proof {
                        assert(final(self)@ =~= old(self)@.subrange(0, old(self)@.len() - n - 1));
                    }
                    Some(x)
                },
                None => None,
            }
        } else {
            let k = n - rsplit;
            let a = start.len();
            if k < a {
                let (rem, tail) = start.split_at_mut(a - 1 - k);
                let (head, _) = tail.split_at_mut(1);
                match head.first_mut() {
                    Some(x) => {
                        self.start = rem;
                        proof {
                            assert(final(self).second() =~= old(self).second().subrange(0, 0));
                            assert(final(self)@ =~= old(self)@.subrange(0, old(self)@.len() - n - 1));
                        }
                        Some(x)
                    },
                    None => None,
                }
            } else {
                proof {
                    assert(final(self).first() =~= old(self).first().subrange(0, 0));
                    assert(final(self).second() =~= old(self).second().subrange(0, 0));
                    assert(final(self)@ =~= old(self)@.subrange(0, 0));
                }
                None
            }
        }
    }

    /// The number of elements left, as a lower and an exact upper bound.
    pub fn size_hint(&self) -> (r: (usize, Option<usize>))
        requires
            self.len_fits(),
        ensures
            r.0 == self@.len(),
            r.1 == Some(r.0),
    {
        let len = self.len();
        (len, Some(len))
    }

    /// The number of elements left.
    pub fn len(&self) -> (r: usize)
        requires
            self.len_fits(),
        ensures
            r == self@.len(),
    {
        self.as_ref().len()
    }
}

} // verus!
