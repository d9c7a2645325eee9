//! A read-only view of a sequence that is stored in two consecutive parts,
//! such as the two halves of a ring buffer.
use vstd::prelude::*;

verus! {

/// One end of an index range, as given to [`DoubleSlice::slice`].
#[derive(Clone, Copy, Debug, PartialEq, Eq, Structural)]
pub enum Bound {
    Included(usize),
    Excluded(usize),
    Unbounded,
}

/// The first index that a range with this lower end covers.
pub open spec fn bound_start(b: Bound) -> int {
    match b {
        Bound::Included(n) => n as int,
        Bound::Excluded(n) => n + 1,
        Bound::Unbounded => 0,
    }
}

/// One past the last index that a range with this upper end covers, in a
/// sequence of length `len`.
pub open spec fn bound_end(b: Bound, len: int) -> int {
    match b {
        Bound::Included(n) => n + 1,
        Bound::Excluded(n) => n as int,
        Bound::Unbounded => len,
    }
}

/// The two ends can be turned into indices without leaving `usize`.
pub open spec fn bounds_fit(start: Bound, end: Bound) -> bool {
    &&& !(start matches Bound::Excluded(n) && n == usize::MAX)
    &&& !(end matches Bound::Included(n) && n == usize::MAX)
}

/// Turns a pair of range ends into a half-open pair of indices.
pub fn normalize_range(start: Bound, end: Bound, len: usize) -> (r: (usize, usize))
    requires
        bounds_fit(start, end),
    ensures
        r.0 == bound_start(start),
        r.1 == bound_end(end, len as int),
        start matches Bound::Included(n) ==> r.0 == n,
        start matches Bound::Excluded(n) ==> r.0 == n + 1,
        start is Unbounded ==> r.0 == 0,
        end matches Bound::Included(n) ==> r.1 == n + 1,
        end matches Bound::Excluded(n) ==> r.1 == n,
        end is Unbounded ==> r.1 == len,
{
    let start_idx = match start {
        Bound::Included(n) => n,
        Bound::Excluded(n) => n + 1,
        Bound::Unbounded => 0,
    };
    let end_idx = match end {
        Bound::Included(n) => n + 1,
        Bound::Excluded(n) => n,
        Bound::Unbounded => len,
    };
    (start_idx, end_idx)
}

/// Formats the two parts with `{:?}`, the second right after the first,
/// through `std`'s `format!`. Nothing is stated of the text: it is what the
/// elements' `Debug` impls write.
#[verifier::external_body]
pub(crate) fn format_parts<T: core::fmt::Debug>(start: &[T], end: &[T]) -> String {
    format!("{:?}{:?}", start, end)
}

/// Formats the two parts as a tuple named `name` with `{:?}` (as
/// `Formatter::debug_tuple` lays it out), through `std`'s `format!`. Nothing
/// is stated of the text: it is what the elements' `Debug` impls write.
#[verifier::external_body]
pub(crate) fn format_tuple<T: core::fmt::Debug>(name: &str, start: &[T], end: &[T]) -> String {
    format!("{}({:?}, {:?})", name, start, end)
}

/// Two shared slices read as one sequence: all of `start`, then all of `end`.
#[derive(PartialEq, Eq, PartialOrd, Ord, Hash)]
pub struct DoubleSlice<'a, T> {
    pub start: &'a [T],
    pub end: &'a [T],
}

impl<'a, T> DoubleSlice<'a, T> {
    /// The elements of the first part.
    pub open spec fn first(self) -> Seq<T> {
        self.start@
    }

    /// The elements of the second part.
    pub open spec fn second(self) -> Seq<T> {
        self.end@
    }

    /// The length can be counted in a `usize`.
    pub open spec fn len_fits(self) -> bool {
        self.first().len() + self.second().len() <= usize::MAX
    }
}

impl<'a, T> View for DoubleSlice<'a, T> {
    type V = Seq<T>;

    open spec fn view(&self) -> Seq<T> {
        self.first() + self.second()
    }
}

impl<'a, T> Clone for DoubleSlice<'a, T> {
    fn clone(&self) -> (r: Self)
        ensures
            r == *self,
    {
        DoubleSlice { start: self.start, end: self.end }
    }
}

impl<'a, T> Copy for DoubleSlice<'a, T> {

}

impl<'a, T> Default for DoubleSlice<'a, T> {
    fn default() -> (r: Self)
        ensures
            r.first() == Seq::<T>::empty(),
            r.second() == Seq::<T>::empty(),
    {
        DoubleSlice { start: &[], end: &[] }
    }
}

impl<'a, T> From<&'a [T]> for DoubleSlice<'a, T> {
    fn from(value: &'a [T]) -> (r: Self)
        ensures
            r.first() == value@,
            r.second() == Seq::<T>::empty(),
    {
        DoubleSlice { start: value, end: &[] }
    }
}

impl<'a, T> vstd::std_specs::convert::FromSpecImpl<&'a [T]> for DoubleSlice<'a, T> {
    open spec fn obeys_from_spec() -> bool {
        true
    }

    open spec fn from_spec(v: &'a [T]) -> Self {
        DoubleSlice { start: v, end: &[] }
    }
}

impl<'a, T> From<(&'a [T], &'a [T])> for DoubleSlice<'a, T> {
    fn from(value: (&'a [T], &'a [T])) -> (r: Self)
        ensures
            r.first() == value.0@,
            r.second() == value.1@,
            r@ == value.0@ + value.1@,
    {
        DoubleSlice { start: value.0, end: value.1 }
    }
}

impl<'a, T> vstd::std_specs::convert::FromSpecImpl<(&'a [T], &'a [T])> for DoubleSlice<'a, T> {
    open spec fn obeys_from_spec() -> bool {
        true
    }

    open spec fn from_spec(v: (&'a [T], &'a [T])) -> Self {
        DoubleSlice { start: v.0, end: v.1 }
    }
}

impl<'a, T> From<DoubleSlice<'a, T>> for (&'a [T], &'a [T]) {
    fn from(value: DoubleSlice<'a, T>) -> (r: Self)
        ensures
            r.0@ == value.first(),
            r.1@ == value.second(),
    {
        value.into_slices()
    }
}

impl<'a, T> vstd::std_specs::convert::FromSpecImpl<DoubleSlice<'a, T>> for (&'a [T], &'a [T]) {
    open spec fn obeys_from_spec() -> bool {
        true
    }

    open spec fn from_spec(v: DoubleSlice<'a, T>) -> Self {
        (v.start, v.end)
    }
}

impl<'a, T> From<[&'a [T]; 2]> for DoubleSlice<'a, T> {
    fn from(value: [&'a [T]; 2]) -> (r: Self)
        ensures
            r.first() == value@[0]@,
            r.second() == value@[1]@,
            r@ == value@[0]@ + value@[1]@,
    {
        DoubleSlice { start: value[0], end: value[1] }
    }
}

impl<'a, T> vstd::std_specs::convert::FromSpecImpl<[&'a [T]; 2]> for DoubleSlice<'a, T> {
    open spec fn obeys_from_spec() -> bool {
        true
    }

    open spec fn from_spec(v: [&'a [T]; 2]) -> Self {
        DoubleSlice { start: v@[0], end: v@[1] }
    }
}

impl<'a, T> From<DoubleSlice<'a, T>> for [&'a [T]; 2] {
    fn from(value: DoubleSlice<'a, T>) -> (r: Self)
        ensures
            r@[0]@ == value.first(),
            r@[1]@ == value.second(),
    {
        [value.start, value.end]
    }
}

impl<'a, T> vstd::std_specs::convert::FromSpecImpl<DoubleSlice<'a, T>> for [&'a [T]; 2] {
    open spec fn obeys_from_spec() -> bool {
        true
    }

    open spec fn from_spec(v: DoubleSlice<'a, T>) -> Self {
        [v.start, v.end]
    }
}

/// Converting a pair of slices keeps their order: the first slice is the
/// first part and is read first, for every pair; converting back gives the
/// same two slices in the same order.
pub proof fn lemma_from_pair_keeps_order<'a, T>(a: &'a [T], b: &'a [T])
    ensures
        ({
            let d = <DoubleSlice<'a, T> as vstd::std_specs::convert::FromSpec<
                (&'a [T], &'a [T]),
            >>::from_spec((a, b));
            let back = <(&'a [T], &'a [T]) as vstd::std_specs::convert::FromSpec<
                DoubleSlice<'a, T>,
            >>::from_spec(d);
            &&& d.first() == a@
            &&& d.second() == b@
            &&& d@ == a@ + b@
            &&& back.0@ == a@
            &&& back.1@ == b@
        }),
        forall|d: DoubleSlice<'a, T>|
            {
                let p = #[trigger] <(&'a [T], &'a [T]) as vstd::std_specs::convert::FromSpec<
                    DoubleSlice<'a, T>,
                >>::from_spec(d);
                p.0@ == d.first() && p.1@ == d.second() && p.0@ + p.1@ == d@
            },
{
}

/// Converting an array of two slices keeps their order: element 0 is the
/// first part and is read first, for every array; converting back gives
/// the same two slices in the same order.
pub proof fn lemma_from_array_keeps_order<'a, T>(v: [&'a [T]; 2])
    ensures
        ({
            let d = <DoubleSlice<'a, T> as vstd::std_specs::convert::FromSpec<
                [&'a [T]; 2],
            >>::from_spec(v);
            let back = <[&'a [T]; 2] as vstd::std_specs::convert::FromSpec<
                DoubleSlice<'a, T>,
            >>::from_spec(d);
            &&& d.first() == v@[0]@
            &&& d.second() == v@[1]@
            &&& d@ == v@[0]@ + v@[1]@
            &&& back@[0]@ == v@[0]@
            &&& back@[1]@ == v@[1]@
        }),
        forall|d: DoubleSlice<'a, T>|
            {
                let p = #[trigger] <[&'a [T]; 2] as vstd::std_specs::convert::FromSpec<
                    DoubleSlice<'a, T>,
                >>::from_spec(d);
                p@[0]@ == d.first() && p@[1]@ == d.second()
            },
{
}

/// What each end of a range stands for, whatever the length: an inclusive
/// end `n` stops after index `n`, so such a range reaches past a sequence
/// of at most `n` elements and [`DoubleSlice::slice`] refuses it; an
/// exclusive start `n` begins at `n + 1`; only an unbounded end depends on
/// the length.
pub proof fn lemma_bounds_meaning(n: usize, len: int)
    ensures
        bound_start(Bound::Included(n)) == n,
        bound_start(Bound::Excluded(n)) == n + 1,
        bound_start(Bound::Unbounded) == 0,
        bound_end(Bound::Included(n), len) == n + 1,
        bound_end(Bound::Excluded(n), len) == n,
        bound_end(Bound::Unbounded, len) == len,
        forall|s: Bound|
            n >= len ==> !(#[trigger] bound_start(s) <= bound_end(Bound::Included(n), len) <= len),
        forall|s: Bound| #[trigger] bound_start(s) >= 0,
        forall|l: int| #[trigger] bound_end(Bound::Included(n), l) == bound_end(Bound::Included(n), len),
{
}

impl<'a, T> DoubleSlice<'a, T> {
    pub fn new(start: &'a [T], end: &'a [T]) -> (r: Self)
        ensures
            r.start == start,
            r.end == end,
            r.first() == start@,
            r.second() == end@,
    {
        DoubleSlice { start, end }
    }

    pub fn from_single(slice: &'a [T]) -> (r: Self)
        ensures
            r.first() == slice@,
            r.second() == Seq::<T>::empty(),
    {
        Self::new(slice, &[])
    }

    pub fn into_slices(self) -> (r: (&'a [T], &'a [T]))
        ensures
            r.0@ == self.first(),
            r.1@ == self.second(),
    {
        (self.start, self.end)
    }

    pub fn len(self) -> (r: usize)
        requires
            self.len_fits(),
        ensures
            r == self@.len(),
    {
        self.start.len() + self.end.len()
    }

    pub fn is_empty(self) -> (r: bool)
        requires
            self.len_fits(),
        ensures
            r == (self@.len() == 0),
    {
        self.len() == 0
    }

    pub fn get(self, index: usize) -> (r: Option<&'a T>)
        ensures
            r == (if index < self@.len() {
                Some(&self@[index as int])
            } else {
                None::<&T>
            }),
    {
        let start = self.start;
        let end = self.end;
        if index >= start.len() {
            let i = index - start.len();
            if i < end.len() {
                Some(&end[i])
            } else {
                None
            }
        } else {
            Some(&start[index])
        }
    }

    /// The elements in the range from `start` to `end`, or `None` where the
    /// range is empty-reversed or reaches past the end.
    pub fn slice(self, start: Bound, end: Bound) -> (r: Option<Self>)
        requires
            self.len_fits(),
            bounds_fit(start, end),
        ensures
            end matches Bound::Included(n) && n >= self@.len() ==> r is None,
            end matches Bound::Excluded(n) && n > self@.len() ==> r is None,
            start matches Bound::Included(n) && n > self@.len() ==> r is None,
            start matches Bound::Excluded(n) && n >= self@.len() ==> r is None,
            start matches Bound::Included(i) ==> (end matches Bound::Excluded(j) ==> (i <= j
                <= self@.len() ==> (r matches Some(s) && s@ == self@.subrange(i as int, j as int)))),
            (start is Unbounded && end is Unbounded) ==> (r matches Some(s) && s@ == self@),
            ({
                let lo = bound_start(start);
                let hi = bound_end(end, self@.len() as int);
                let a = self.first().len() as int;
                &&& r is Some <==> lo <= hi <= self@.len()
                &&& r matches Some(s) ==> {
                    &&& s.first() == self.first().subrange(vstd::math::min(lo, a), vstd::math::min(hi, a))
                    &&& s.second() == self.second().subrange(
                        vstd::math::max(lo, a) - a,
                        vstd::math::max(hi, a) - a,
                    )
                    &&& s@ == self@.subrange(lo, hi)
                }
            }),
    {
        let this_len = self.len();
        let (mut start_part, mut end_part) = self.into_slices();
        let (start_idx, end_idx) = normalize_range(start, end, this_len);
        let range_len = match end_idx.checked_sub(start_idx) {
            Some(n) => n,
            None => {
                return None;
            },
        };
        if start_idx >= start_part.len() {
            let k = start_idx - start_part.len();
            if k > end_part.len() {
                return None;
            }
            start_part = &[];
            end_part = &end_part[k..end_part.len()];
        } else {
            start_part = &start_part[start_idx..start_part.len()];
        }
        if range_len >= start_part.len() {
            let k = range_len - start_part.len();
            if k > end_part.len() {
                return None;
            }
            end_part = &end_part[0..k];
        } else {
            end_part = &[];
            start_part = &start_part[0..range_len];
        }
        let r = Self::new(start_part, end_part);
        proof {
            assert(r@ =~= self@.subrange(start_idx as int, end_idx as int));
        }
        Some(r)
    }

    /// Splits at index `mid`: the first `mid` elements, then the rest.
    pub fn split_at(self, mid: usize) -> (r: Option<(Self, Self)>)
        ensures
            ({
                let a = self.first().len() as int;
                &&& r is Some <==> mid <= self@.len()
                &&& r matches Some((left, right)) ==> {
                    &&& mid <= a ==> {
                        &&& left.first() == self.first().subrange(0, mid as int)
                        &&& left.second() == Seq::<T>::empty()
                        &&& right.first() == self.first().subrange(mid as int, a)
                        &&& right.second() == self.second()
                    }
                    &&& mid > a ==> {
                        &&& left.first() == self.first()
                        &&& left.second() == self.second().subrange(0, mid - a)
                        &&& right.first() == self.second().subrange(mid - a, self.second().len() as int)
                        &&& right.second() == Seq::<T>::empty()
                    }
                    &&& left@ == self@.subrange(0, mid as int)
                    &&& right@ == self@.subrange(mid as int, self@.len() as int)
                    &&& left@ + right@ == self@
                }
            }),
    {
        let split = self.start.len();
        if mid <= split {
            let (s, e) = self.start.split_at(mid);
            let r = (Self::from_single(s), Self::new(e, self.end));
            proof {
                assert(r.0@ + r.1@ =~= self@);
                assert(r.0@ =~= self@.subrange(0, mid as int));
                assert(r.1@ =~= self@.subrange(mid as int, self@.len() as int));
            }
            Some(r)
        } else if mid - split <= self.end.len() {
            let (s, e) = self.end.split_at(mid - split);
            let r = (Self::new(self.start, s), Self::from_single(e));
            proof {
                assert(r.0@ + r.1@ =~= self@);
                assert(r.0@ =~= self@.subrange(0, mid as int));
                assert(r.1@ =~= self@.subrange(mid as int, self@.len() as int));
            }
            Some(r)
        } else {
            None
        }
    }

    /// The first element and the rest, or `None` when empty.
    pub fn split_first(self) -> (r: Option<(&'a T, Self)>)
        ensures
            r is Some <==> self@.len() > 0,
            r matches Some((x, rest)) ==> {
                &&& *x == self@[0]
                &&& self.first().len() > 0 ==> rest.first() == self.first().drop_first()
                    && rest.second() == self.second()
                &&& self.first().len() == 0 ==> rest.first() == self.second().drop_first()
                    && rest.second() == Seq::<T>::empty()
                &&& rest@ == self@.drop_first()
            },
    {
        if self.start.len() > 0 {
            let r = (&self.start[0], Self::new(&self.start[1..self.start.len()], self.end));
            proof {
                assert(r.1.first() =~= self.first().drop_first());
                assert(r.1@ =~= self@.drop_first());
            }
            Some(r)
        } else if self.end.len() > 0 {
            let r = (&self.end[0], Self::from_single(&self.end[1..self.end.len()]));
            proof {
                assert(r.1.first() =~= self.second().drop_first());
                assert(r.1@ =~= self@.drop_first());
            }
            Some(r)
        } else {
            None
        }
    }

    /// The last element and the rest, or `None` when empty.
    pub fn split_last(self) -> (r: Option<(&'a T, Self)>)
        ensures
            r is Some <==> self@.len() > 0,
            r matches Some((x, rest)) ==> {
                &&& *x == self@.last()
                &&& self.second().len() > 0 ==> rest.first() == self.first()
                    && rest.second() == self.second().drop_last()
                &&& self.second().len() == 0 ==> rest.first() == self.first().drop_last()
                    && rest.second() == Seq::<T>::empty()
                &&& rest@ == self@.drop_last()
            },
    {
        let b = self.end.len();
        let a = self.start.len();
        if b > 0 {
            let r = (&self.end[b - 1], Self::new(self.start, &self.end[0..b - 1]));
            proof {
                assert(r.1@ =~= self@.drop_last());
            }
            Some(r)
        } else if a > 0 {
            let r = (&self.start[a - 1], Self::from_single(&self.start[0..a - 1]));
            proof {
                assert(r.1@ =~= self@.drop_last());
            }
            Some(r)
        } else {
            None
        }
    }

    /// The parts written with `{:?}`, one after the other.
    pub fn debug_string(&self) -> String
        where
            T: core::fmt::Debug,
    {
        format_parts(self.start, self.end)
    }

    /// An iterator over the elements, from the first to the last.
    pub fn iter(self) -> (r: Iter<'a, T>)
        ensures
            r.rest().first() == self.first(),
            r.rest().second() == self.second(),
    {
        Iter::from_slice(self)
    }
}


impl<'a, T> core::ops::Index<usize> for DoubleSlice<'a, T> {
    type Output = T;

    fn index(&self, index: usize) -> (r: &T)
        ensures
            *r == self@[index as int],
    {
        self.get(index).expect("index out of bounds")
    }
}

impl<'a, T> vstd::std_specs::core::IndexSpecImpl<usize> for DoubleSlice<'a, T> {
    open spec fn index_req(&self, index: &usize) -> bool {
        *index < self@.len()
    }
}

/// What one call from the front leaves of `s`: all but the first element.
pub open spec fn front_step<T>(s: Seq<T>) -> Seq<T> {
    if s.len() == 0 {
        s
    } else {
        s.drop_first()
    }
}

/// What one call from the back leaves of `s`: all but the last element.
pub open spec fn back_step<T>(s: Seq<T>) -> Seq<T> {
    if s.len() == 0 {
        s
    } else {
        s.drop_last()
    }
}

/// What one call from the front hands out of `s`.
pub open spec fn front_item<T>(s: Seq<T>) -> Option<T> {
    if s.len() == 0 {
        None
    } else {
        Some(s[0])
    }
}

/// What one call from the back hands out of `s`.
pub open spec fn back_item<T>(s: Seq<T>) -> Option<T> {
    if s.len() == 0 {
        None
    } else {
        Some(s.last())
    }
}

/// The element that a handed-out reference points to.
pub open spec fn deref_item<T>(r: Option<&T>) -> Option<T> {
    match r {
        Some(x) => Some(*x),
        None => None,
    }
}

/// What a run of calls leaves of `s`: `calls[i]` is `true` where the
/// `i`-th call takes from the front and `false` where it takes from the back.
pub open spec fn after_calls<T>(s: Seq<T>, calls: Seq<bool>) -> Seq<T>
    decreases calls.len(),
{
    if calls.len() == 0 {
        s
    } else {
        let t = after_calls(s, calls.drop_last());
        if calls.last() {
            front_step(t)
        } else {
            back_step(t)
        }
    }
}

/// What the last call of a non-empty run hands out.
pub open spec fn last_call_item<T>(s: Seq<T>, calls: Seq<bool>) -> Option<T> {
    let t = after_calls(s, calls.drop_last());
    if calls.last() {
        front_item(t)
    } else {
        back_item(t)
    }
}

/// How many calls of a run take from the front.
pub open spec fn count_fronts(calls: Seq<bool>) -> nat
    decreases calls.len(),
{
    if calls.len() == 0 {
        0
    } else {
        count_fronts(calls.drop_last()) + (if calls.last() {
            1nat
        } else {
            0nat
        })
    }
}

/// A run of calls from both ends, in any order, with `f` from the front and
/// `b` from the back: while `f + b` is at most the length `n`, what is left
/// is the elements from `f` to `n - b`; after that nothing is left. Each call
/// hands out the next element from its end (element `f` from the front,
/// element `n - 1 - b` from the back, counting the calls before it), or
/// `None` once the elements are used up; so the front calls hand out the
/// elements in order, the back calls hand them out from the last, and
/// nothing is handed out twice.
pub proof fn lemma_run_of_calls<T>(s: Seq<T>, calls: Seq<bool>)
    ensures
        count_fronts(calls) <= calls.len(),
        ({
            let f = count_fronts(calls) as int;
            let b = calls.len() - f;
            let n = s.len() as int;
            &&& f + b <= n ==> after_calls(s, calls) == s.subrange(f, n - b)
            &&& f + b >= n ==> after_calls(s, calls).len() == 0
        }),
        calls.len() > 0 ==> ({
            let c = calls.drop_last();
            let f = count_fronts(c) as int;
            let b = c.len() - f;
            let n = s.len() as int;
            last_call_item(s, calls) == (if f + b < n {
                Some(
                    if calls.last() {
                        s[f]
                    } else {
                        s[n - 1 - b]
                    },
                )
            } else {
                None::<T>
            })
        }),
    decreases calls.len(),
{
    if calls.len() == 0 {
        assert(s.subrange(0, s.len() as int) =~= s);
    } else {
        let c = calls.drop_last();
        lemma_run_of_calls(s, c);
        let t = after_calls(s, c);
        let f = count_fronts(c) as int;
        let b = c.len() - f;
        let n = s.len() as int;
        if f + b < n {
            if calls.last() {
                assert(front_step(t) =~= s.subrange(f + 1, n - b));
            } else {
                assert(back_step(t) =~= s.subrange(f, n - b - 1));
            }
        }
    }
}

proof fn lemma_count_fronts_uniform(m: nat, front: bool)
    ensures
        count_fronts(Seq::new(m, |i: int| front)) == (if front {
            m
        } else {
            0
        }),
    decreases m,
{
    if m > 0 {
        lemma_count_fronts_uniform((m - 1) as nat, front);
        assert(Seq::new(m, |i: int| front).drop_last() =~= Seq::new((m - 1) as nat, |i: int| front));
    }
}

/// `nth(n)` does what `n + 1` calls of `next` do: the last of them hands out
/// element `n` (or `None` past the end), and what is left is the same.
pub proof fn lemma_nth_is_repeated_next<T>(s: Seq<T>, n: nat)
    ensures
        ({
            let calls = Seq::new(n + 1, |i: int| true);
            &&& after_calls(s, calls) == s.subrange(
                vstd::math::min(n + 1 as int, s.len() as int),
                s.len() as int,
            )
            &&& last_call_item(s, calls) == (if n < s.len() {
                Some(s[n as int])
            } else {
                None::<T>
            })
        }),
{
    let calls = Seq::new(n + 1, |i: int| true);
    lemma_run_of_calls(s, calls);
    lemma_count_fronts_uniform(n + 1, true);
    lemma_count_fronts_uniform(n, true);
    assert(calls.drop_last() =~= Seq::new(n, |i: int| true));
    if n + 1 > s.len() {
        assert(s.subrange(s.len() as int, s.len() as int) =~= after_calls(s, calls));
    }
}

/// `nth_back(n)` does what `n + 1` calls of `next_back` do: the last of them
/// hands out element `len - 1 - n` (or `None` past the front), and what is
/// left is the same.
pub proof fn lemma_nth_back_is_repeated_next_back<T>(s: Seq<T>, n: nat)
    ensures
        ({
            let calls = Seq::new(n + 1, |i: int| false);
            &&& after_calls(s, calls) == s.subrange(0, vstd::math::max(s.len() - n - 1, 0))
            &&& last_call_item(s, calls) == (if n < s.len() {
                Some(s[s.len() - 1 - n])
            } else {
                None::<T>
            })
        }),
{
    let calls = Seq::new(n + 1, |i: int| false);
    lemma_run_of_calls(s, calls);
    lemma_count_fronts_uniform(n + 1, false);
    lemma_count_fronts_uniform(n, false);
    assert(calls.drop_last() =~= Seq::new(n, |i: int| false));
    if n + 1 > s.len() {
        assert(s.subrange(0, 0) =~= after_calls(s, calls));
    }
}

/// An iterator over a [`DoubleSlice`] that can be consumed from both ends.
pub struct Iter<'a, T> {
    rest: DoubleSlice<'a, T>,
}

impl<'a, T> Iter<'a, T> {
    /// The elements not yet handed out.
    pub closed spec fn rest(self) -> DoubleSlice<'a, T> {
        self.rest
    }
}

impl<'a, T> Clone for Iter<'a, T> {
    fn clone(&self) -> (r: Self)
        ensures
            r.rest() == self.rest(),
    {
        Iter { rest: self.rest }
    }
}

impl<'a, T> Default for Iter<'a, T> {
    fn default() -> (r: Self)
        ensures
            r.rest()@ == Seq::<T>::empty(),
    {
        Iter { rest: DoubleSlice::default() }
    }
}

impl<'a, T> Iter<'a, T> {
    fn new(first: &'a [T], second: &'a [T]) -> (r: Self)
        ensures
            r.rest().first() == first@,
            r.rest().second() == second@,
    {
        Iter { rest: DoubleSlice::new(first, second) }
    }

    fn from_slice(slice: DoubleSlice<'a, T>) -> (r: Self)
        ensures
            r.rest().first() == slice.first(),
            r.rest().second() == slice.second(),
    {
        let (first, second) = slice.into_slices();
        Self::new(first, second)
    }

    /// The parts not yet handed out, written as `Iter(.., ..)` with `{:?}`.
    pub fn debug_string(&self) -> String
        where
            T: core::fmt::Debug,
    {
        format_tuple("Iter", self.rest.start, self.rest.end)
    }

    /// The elements not yet handed out, as a slice pair.
    pub fn as_ref(&self) -> (r: DoubleSlice<'_, T>)
        ensures
            r == self.rest(),
    {
        self.rest
    }

    /// Hands out the next element from the front.
    pub fn next(&mut self) -> (r: Option<&'a T>)
        ensures
            ({
                let before = old(self).rest();
                let after = final(self).rest();
                &&& before@.len() == 0 ==> r is None && after == before
                &&& before@.len() > 0 ==> {
                    &&& r == Some(&before@[0])
                    &&& before.first().len() > 0 ==> after.first() == before.first().drop_first()
                        && after.second() == before.second()
                    &&& before.first().len() == 0 ==> after.first() == before.first()
                        && after.second() == before.second().drop_first()
                }
                &&& after@ == front_step(before@)
                &&& deref_item(r) == front_item(before@)
            }),
    {
        let (start, end) = self.rest.into_slices();
        if start.len() > 0 {
            let x = &start[0];
            self.rest = DoubleSlice::new(&start[1..start.len()], end);
            proof {
                assert(self.rest().first() =~= old(self).rest().first().drop_first());
                assert(self.rest()@ =~= old(self).rest()@.drop_first());
            }
            Some(x)
        } else if end.len() > 0 {
            let x = &end[0];
            self.rest = DoubleSlice::new(start, &end[1..end.len()]);
            proof {
                assert(self.rest().second() =~= old(self).rest().second().drop_first());
                assert(self.rest()@ =~= old(self).rest()@.drop_first());
            }
            Some(x)
        } else {
            None
        }
    }

    /// Skips `n` elements and hands out the one after them, or `None` where
    /// fewer than `n + 1` are left; either way all that it passed over is gone.
    pub fn nth(&mut self, n: usize) -> (r: Option<&'a T>)
        ensures
            ({
                let before = old(self).rest();
                let after = final(self).rest();
                let a = before.first().len() as int;
                let b = before.second().len() as int;
                &&& r == (if n < before@.len() {
                    Some(&before@[n as int])
                } else {
                    None::<&T>
                })
                &&& after.first() == before.first().subrange(vstd::math::min(n + 1, a), a)
                &&& after.second() == (if n < a {
                    before.second()
                } else {
                    before.second().subrange(vstd::math::min(n - a + 1, b), b)
                })
                &&& after@ == before@.subrange(
                    vstd::math::min(n + 1, before@.len() as int),
                    before@.len() as int,
                )
                &&& after@ == after_calls(before@, Seq::new((n + 1) as nat, |i: int| true))
                &&& deref_item(r) == last_call_item(before@, Seq::new((n + 1) as nat, |i: int| true))
            }),
    {
        proof {
            lemma_nth_is_repeated_next(old(self).rest()@, n as nat);
        }
        let (start, end) = self.rest.into_slices();
        let split = start.len();
        if n < split {
            let x = &start[n];
            self.rest = DoubleSlice::new(&start[n + 1..split], end);
            proof {
                assert(self.rest()@ =~= old(self).rest()@.subrange(n + 1, old(self).rest()@.len() as int));
            }
            Some(x)
        } else {
            let k = n - split;
            if k < end.len() {
                let x = &end[k];
                self.rest = DoubleSlice::new(&start[split..split], &end[k + 1..end.len()]);
                proof {
                    assert(self.rest().first() =~= old(self).rest().first().subrange(split as int, split as int));
                    assert(self.rest()@ =~= old(self).rest()@.subrange(n + 1, old(self).rest()@.len() as int));
                }
                Some(x)
            } else {
                self.rest = DoubleSlice::new(&start[split..split], &end[end.len()..end.len()]);
                proof {
                    assert(self.rest()@ =~= old(self).rest()@.subrange(
                        old(self).rest()@.len() as int, old(self).rest()@.len() as int));
                }
                None
            }
        }
    }

    /// The number of elements left, as a lower and an exact upper bound.
    pub fn size_hint(&self) -> (r: (usize, Option<usize>))
        requires
            self.rest().len_fits(),
        ensures
            r.0 == self.rest()@.len(),
            r.1 == Some(r.0),
    {
        let len = self.len();
        (len, Some(len))
    }

    /// Hands out the next element from the back.
    pub fn next_back(&mut self) -> (r: Option<&'a T>)
        ensures
            ({
                let before = old(self).rest();
                let after = final(self).rest();
                &&& before@.len() == 0 ==> r is None && after == before
                &&& before@.len() > 0 ==> {
                    &&& r == Some(&before@.last())
                    &&& before.second().len() > 0 ==> after.first() == before.first()
                        && after.second() == before.second().drop_last()
                    &&& before.second().len() == 0 ==> after.first() == before.first().drop_last()
                        && after.second() == Seq::<T>::empty()
                }
                &&& after@ == back_step(before@)
                &&& deref_item(r) == back_item(before@)
            }),
    {
        match self.rest.split_last() {
            Some((x, rest)) => {
                self.rest = rest;
                Some(x)
            },
            None => None,
        }
    }

    /// Skips `n` elements from the back and hands out the one before them, or
    /// `None` where fewer than `n + 1` are left; either way all that it passed
    /// over is gone.
    pub fn nth_back(&mut self, n: usize) -> (r: Option<&'a T>)
        ensures
            ({
                let before = old(self).rest();
                let after = final(self).rest();
                let a = before.first().len() as int;
                let b = before.second().len() as int;
                let len = before@.len() as int;
                &&& r == (if n < len {
                    Some(&before@[len - 1 - n])
                } else {
                    None::<&T>
                })
                &&& after.second() == before.second().subrange(0, vstd::math::max(b - n - 1, 0))
                &&& after.first() == (if n < b {
                    before.first()
                } else {
                    before.first().subrange(0, vstd::math::max(a - (n - b) - 1, 0))
                })
                &&& after@ == before@.subrange(0, vstd::math::max(len - n - 1, 0))
                &&& after@ == after_calls(before@, Seq::new((n + 1) as nat, |i: int| false))
                &&& deref_item(r) == last_call_item(before@, Seq::new((n + 1) as nat, |i: int| false))
            }),
    {
        proof {
            lemma_nth_back_is_repeated_next_back(old(self).rest()@, n as nat);
        }
        let (start, end) = self.rest.into_slices();
        let rsplit = end.len();
        if n < rsplit {
            let x = &end[rsplit - 1 - n];
            self.rest = DoubleSlice::new(start, &end[0..rsplit - 1 - n]);
            proof {
                assert(self.rest()@ =~= old(self).rest()@.subrange(0, old(self).rest()@.len() - n - 1));
            }
            Some(x)
        } else {
            let k = n - rsplit;
            let a = start.len();
            if k < a {
                let x = &start[a - 1 - k];
                self.rest = DoubleSlice::new(&start[0..a - 1 - k], &end[0..0]);
                proof {
                    assert(self.rest().second() =~= old(self).rest().second().subrange(0, 0));
                    assert(self.rest()@ =~= old(self).rest()@.subrange(0, old(self).rest()@.len() - n - 1));
                }
                Some(x)
            } else {
                self.rest = DoubleSlice::new(&start[0..0], &end[0..0]);
                proof {
                    assert(self.rest()@ =~= old(self).rest()@.subrange(0, 0));
                }
                None
            }
        }
    }

    /// The number of elements left.
    pub fn len(&self) -> (r: usize)
        requires
            self.rest().len_fits(),
        ensures
            r == self.rest()@.len(),
    {
        self.as_ref().len()
    }
}

} // verus!
