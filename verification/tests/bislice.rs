use ptrack::bislice::{normalize_range, Bound, DoubleSlice, Iter};

fn collect(d: DoubleSlice<'_, i32>) -> Vec<i32> {
    let mut it = d.iter();
    let mut out = Vec::new();
    while let Some(x) = it.next() {
        out.push(*x);
    }
    out
}

#[test]
fn normalize_range_all_bounds() {
    assert_eq!(normalize_range(Bound::Included(2), Bound::Excluded(5), 9), (2, 5));
    assert_eq!(normalize_range(Bound::Excluded(2), Bound::Included(5), 9), (3, 6));
    assert_eq!(normalize_range(Bound::Unbounded, Bound::Unbounded, 9), (0, 9));
}

#[test]
fn len_and_get_span_both_parts() {
    let a = [1, 2, 3];
    let b = [4, 5];
    let d = DoubleSlice::new(&a, &b);
    assert_eq!(d.len(), 5);
    assert!(!d.is_empty());
    assert_eq!(d.get(0), Some(&1));
    assert_eq!(d.get(2), Some(&3));
    assert_eq!(d.get(3), Some(&4));
    assert_eq!(d.get(4), Some(&5));
    assert_eq!(d.get(5), None);
    assert!(DoubleSlice::<i32>::default().is_empty());
}

#[test]
fn into_slices_keeps_the_split() {
    let a = [1, 2, 3];
    let b = [4, 5];
    let (x, y) = DoubleSlice::new(&a, &b).into_slices();
    assert_eq!(x, &[1, 2, 3]);
    assert_eq!(y, &[4, 5]);
    let (x, y) = DoubleSlice::from_single(&a).into_slices();
    assert_eq!(x, &[1, 2, 3]);
    assert!(y.is_empty());
}

#[test]
fn conversions_round_trip() {
    let a = [1, 2];
    let b = [3];
    let d: DoubleSlice<'_, i32> = (&a[..], &b[..]).into();
    let back: (&[i32], &[i32]) = d.into();
    assert_eq!(back, (&a[..], &b[..]));
    let d: DoubleSlice<'_, i32> = [&a[..], &b[..]].into();
    let arr: [&[i32]; 2] = d.into();
    assert_eq!(arr, [&a[..], &b[..]]);
    let d: DoubleSlice<'_, i32> = (&a[..]).into();
    assert_eq!(collect(d), vec![1, 2]);
}

#[test]
fn slice_across_the_split() {
    let a = [1, 2, 3];
    let b = [4, 5, 6];
    let d = DoubleSlice::new(&a, &b);
    let s = d.slice(Bound::Included(1), Bound::Excluded(5)).unwrap();
    assert_eq!(s.into_slices(), (&[2, 3][..], &[4, 5][..]));
    let s = d.slice(Bound::Included(4), Bound::Unbounded).unwrap();
    assert_eq!(s.into_slices(), (&[][..], &[5, 6][..]));
    let s = d.slice(Bound::Unbounded, Bound::Included(1)).unwrap();
    assert_eq!(s.into_slices(), (&[1, 2][..], &[][..]));
    let s = d.slice(Bound::Excluded(2), Bound::Unbounded).unwrap();
    assert_eq!(collect(s), vec![4, 5, 6]);
}

#[test]
fn slice_refuses_bad_ranges() {
    let a = [1, 2, 3];
    let b = [4, 5, 6];
    let d = DoubleSlice::new(&a, &b);
    assert!(d.slice(Bound::Included(4), Bound::Excluded(3)).is_none());
    assert!(d.slice(Bound::Included(0), Bound::Excluded(7)).is_none());
    assert!(d.slice(Bound::Included(7), Bound::Unbounded).is_none());
    let e = d.slice(Bound::Included(6), Bound::Unbounded).unwrap();
    assert!(e.is_empty());
}

#[test]
fn split_at_both_sides() {
    let a = [1, 2, 3];
    let b = [4, 5];
    let d = DoubleSlice::new(&a, &b);
    let (l, r) = d.split_at(1).unwrap();
    assert_eq!(l.into_slices(), (&[1][..], &[][..]));
    assert_eq!(r.into_slices(), (&[2, 3][..], &[4, 5][..]));
    let (l, r) = d.split_at(3).unwrap();
    assert_eq!(l.into_slices(), (&[1, 2, 3][..], &[][..]));
    assert_eq!(r.into_slices(), (&[][..], &[4, 5][..]));
    let (l, r) = d.split_at(4).unwrap();
    assert_eq!(l.into_slices(), (&[1, 2, 3][..], &[4][..]));
    assert_eq!(r.into_slices(), (&[5][..], &[][..]));
    assert!(d.split_at(6).is_none());
}

#[test]
fn split_first_and_last() {
    let a = [1];
    let b = [2, 3];
    let d = DoubleSlice::new(&a, &b);
    let (x, rest) = d.split_first().unwrap();
    assert_eq!(*x, 1);
    let (y, rest2) = rest.split_first().unwrap();
    assert_eq!(*y, 2);
    assert_eq!(rest2.into_slices(), (&[3][..], &[][..]));
    let (z, rest) = d.split_last().unwrap();
    assert_eq!(*z, 3);
    assert_eq!(rest.into_slices(), (&[1][..], &[2][..]));
    let only_start = DoubleSlice::from_single(&a);
    let (w, rest) = only_start.split_last().unwrap();
    assert_eq!(*w, 1);
    assert!(rest.is_empty());
    assert!(DoubleSlice::<i32>::default().split_first().is_none());
    assert!(DoubleSlice::<i32>::default().split_last().is_none());
}

#[test]
fn iter_yields_in_order() {
    let a = [1, 2];
    let b = [3, 4];
    let d = DoubleSlice::new(&a, &b);
    assert_eq!(collect(d), vec![1, 2, 3, 4]);
    let mut it = d.iter();
    assert_eq!(it.len(), 4);
    assert_eq!(it.size_hint(), (4, Some(4)));
    assert_eq!(it.next_back(), Some(&4));
    assert_eq!(it.next(), Some(&1));
    assert_eq!(it.as_ref().into_slices(), (&[2][..], &[3][..]));
    assert_eq!(it.len(), 2);
    let mut c = it.clone();
    assert_eq!(c.next(), Some(&2));
    assert_eq!(it.next(), Some(&2));
    assert_eq!(it.next(), Some(&3));
    assert_eq!(it.next(), None);
    assert_eq!(it.next_back(), None);
    let mut empty: Iter<'_, i32> = Iter::default();
    assert_eq!(empty.next(), None);
}

#[test]
fn nth_skips_and_consumes() {
    let a = [1, 2, 3];
    let b = [4, 5, 6];
    let d = DoubleSlice::new(&a, &b);
    let mut it = d.iter();
    assert_eq!(it.nth(1), Some(&2));
    assert_eq!(it.nth(2), Some(&5));
    assert_eq!(it.next(), Some(&6));
    let mut it = d.iter();
    assert_eq!(it.nth(10), None);
    assert_eq!(it.len(), 0);
    let mut it = d.iter();
    assert_eq!(it.nth_back(1), Some(&5));
    assert_eq!(it.nth_back(1), Some(&3));
    assert_eq!(it.next_back(), Some(&2));
    assert_eq!(it.len(), 1);
    let mut it = d.iter();
    assert_eq!(it.nth_back(6), None);
    assert_eq!(it.next(), None);
}

#[test]
fn index_reads_across_the_split() {
    let a = [1, 2];
    let b = [3];
    let d = DoubleSlice::new(&a, &b);
    assert_eq!(d[0], 1);
    assert_eq!(d[2], 3);
}

#[test]
fn debug_strings() {
    let a = [1, 2];
    let b = [3];
    let d = DoubleSlice::new(&a, &b);
    assert_eq!(d.debug_string(), "[1, 2][3]");
    let mut it = d.iter();
    it.next();
    assert_eq!(it.debug_string(), "Iter([2], [3])");
}

#[test]
fn interleaved_calls_meet_in_the_middle() {
    let a = [1, 2, 3];
    let b = [4, 5];
    let mut it = DoubleSlice::new(&a, &b).iter();
    assert_eq!(it.next(), Some(&1));
    assert_eq!(it.next_back(), Some(&5));
    assert_eq!(it.next(), Some(&2));
    assert_eq!(it.as_ref().into_slices(), (&[3][..], &[4][..]));
    assert_eq!(it.next_back(), Some(&4));
    assert_eq!(it.next(), Some(&3));
    assert_eq!(it.next(), None);
    assert_eq!(it.next_back(), None);
    assert_eq!(it.len(), 0);
}

#[test]
fn next_keeps_the_split_when_the_first_part_is_used_up() {
    let a: [i32; 0] = [];
    let b = [1, 2];
    let mut it = DoubleSlice::new(&a, &b).iter();
    assert_eq!(it.next(), Some(&1));
    assert_eq!(it.as_ref().into_slices(), (&[][..], &[2][..]));
    let a = [1];
    let b = [2, 3];
    let mut it = DoubleSlice::new(&a, &b).iter();
    it.next();
    it.next();
    assert_eq!(it.as_ref().into_slices(), (&[][..], &[3][..]));
}
