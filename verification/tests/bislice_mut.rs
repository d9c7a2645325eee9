use ptrack::bislice::{Bound, DoubleSlice};
use ptrack::bislice_mut::{DoubleSliceMut, IterMut};

#[test]
fn get_mut_writes_through() {
    let mut a = [1, 2];
    let mut b = [3, 4];
    *DoubleSliceMut::new(&mut a, &mut b).get_mut(1).unwrap() = 20;
    *DoubleSliceMut::new(&mut a, &mut b).get_mut(3).unwrap() = 40;
    assert!(DoubleSliceMut::new(&mut a, &mut b).get_mut(4).is_none());
    assert_eq!(a, [1, 20]);
    assert_eq!(b, [3, 40]);
}

#[test]
fn reborrow_then_write() {
    let mut a = [1, 2];
    let mut b = [3];
    let mut d = DoubleSliceMut::new(&mut a, &mut b);
    *d.reborrow_mut().get_mut(2).unwrap() = 30;
    assert_eq!(d.reborrow().len(), 3);
    assert_eq!(d.reborrow().get(2), Some(&30));
    let r = d.into_ref();
    assert_eq!(r.into_slices(), (&[1, 2][..], &[30][..]));
}

#[test]
fn slice_mut_writes_only_the_range() {
    let mut a = [1, 2, 3];
    let mut b = [4, 5, 6];
    {
        let d = DoubleSliceMut::new(&mut a, &mut b);
        let s = d.slice_mut(Bound::Included(2), Bound::Excluded(4)).unwrap();
        let (x, y) = s.into_mut_slices();
        assert_eq!((&*x, &*y), (&[3][..], &[4][..]));
        x[0] = 30;
        y[0] = 40;
    }
    assert_eq!(a, [1, 2, 30]);
    assert_eq!(b, [40, 5, 6]);
    let d = DoubleSliceMut::new(&mut a, &mut b);
    assert!(d.slice_mut(Bound::Included(5), Bound::Excluded(2)).is_none());
}

#[test]
fn copy_from_slice_source_split_later() {
    let src_a = [10, 20, 30];
    let src_b = [40];
    let mut a = [0];
    let mut b = [0, 0, 0];
    let r = DoubleSliceMut::new(&mut a, &mut b).copy_from_slice(DoubleSlice::new(&src_a, &src_b));
    assert_eq!(r, Some(()));
    assert_eq!(a, [10]);
    assert_eq!(b, [20, 30, 40]);
}

#[test]
fn copy_from_slice_source_split_earlier() {
    let src_a = [10];
    let src_b = [20, 30, 40];
    let mut a = [0, 0, 0];
    let mut b = [0];
    let r = DoubleSliceMut::new(&mut a, &mut b).copy_from_slice(DoubleSlice::new(&src_a, &src_b));
    assert_eq!(r, Some(()));
    assert_eq!(a, [10, 20, 30]);
    assert_eq!(b, [40]);
}

#[test]
fn copy_from_slice_length_mismatch_writes_nothing() {
    let src = [7, 8];
    let mut a = [1, 2, 3];
    let r = DoubleSliceMut::from_single(&mut a).copy_from_slice(DoubleSlice::from_single(&src));
    assert_eq!(r, None);
    assert_eq!(a, [1, 2, 3]);
}

#[test]
fn split_at_mut_parts_write_back() {
    let mut a = [1, 2];
    let mut b = [3, 4];
    {
        let (l, r) = DoubleSliceMut::new(&mut a, &mut b).split_at(1).unwrap();
        let (l0, l1) = l.into_mut_slices();
        assert_eq!((&*l0, &*l1), (&[1][..], &[][..]));
        l0[0] = 10;
        *r.get_mut(2).unwrap() = 40;
    }
    {
        let (l, r) = DoubleSliceMut::new(&mut a, &mut b).split_at(2).unwrap();
        assert_eq!(l.reborrow().into_slices(), (&[10, 2][..], &[][..]));
        assert_eq!(r.reborrow().into_slices(), (&[3, 40][..], &[][..]));
    }
    assert!(DoubleSliceMut::new(&mut a, &mut b).split_at(5).is_none());
    assert_eq!(a, [10, 2]);
    assert_eq!(b, [3, 40]);
}

#[test]
fn split_first_and_last_mut() {
    let mut a: [i32; 0] = [];
    let mut b = [1, 2, 3];
    {
        let (x, rest) = DoubleSliceMut::new(&mut a, &mut b).split_first().unwrap();
        *x = 10;
        let (y, _) = rest.split_last().unwrap();
        *y = 30;
    }
    assert_eq!(b, [10, 2, 30]);
    let mut c: [i32; 0] = [];
    assert!(DoubleSliceMut::from_single(&mut c).split_first().is_none());
    assert!(DoubleSliceMut::from_single(&mut c).split_last().is_none());
}

#[test]
fn iter_mut_visits_every_element() {
    let mut a = [1, 2];
    let mut b = [3];
    {
        let mut it = DoubleSliceMut::new(&mut a, &mut b).iter_mut();
        assert_eq!(it.len(), 3);
        assert_eq!(it.size_hint(), (3, Some(3)));
        while let Some(x) = it.next() {
            *x *= 10;
        }
    }
    assert_eq!(a, [10, 20]);
    assert_eq!(b, [30]);
    {
        let mut it = DoubleSliceMut::new(&mut a, &mut b).iter_mut();
        *it.next_back().unwrap() = 3;
        *it.nth(1).unwrap() = 2;
        assert!(it.next().is_none());
    }
    assert_eq!(a, [10, 2]);
    assert_eq!(b, [3]);
    {
        let mut it = DoubleSliceMut::new(&mut a, &mut b).iter_mut();
        *it.nth_back(2).unwrap() = 1;
        assert!(it.nth_back(0).is_none());
        assert_eq!(it.as_ref().len(), 0);
    }
    assert_eq!(a, [1, 2]);
    let mut it = DoubleSliceMut::new(&mut a, &mut b).iter_mut();
    assert_eq!(it.next().map(|x| *x), Some(1));
    let rest = it.into_slice();
    assert_eq!(rest.reborrow().into_slices(), (&[2][..], &[3][..]));
    let mut empty: IterMut<'_, i32> = IterMut::default();
    assert!(empty.next().is_none());
}

#[test]
fn index_on_mutable_view() {
    let mut a = [1];
    let mut b = [2, 3];
    let d = DoubleSliceMut::new(&mut a, &mut b);
    assert_eq!(d[0], 1);
    assert_eq!(d[2], 3);
}

#[test]
fn debug_strings_mut() {
    let mut a = [1];
    let mut b = [2, 3];
    let d = DoubleSliceMut::new(&mut a, &mut b);
    assert_eq!(d.debug_string(), "[1][2, 3]");
    let mut it = d.iter_mut();
    it.next_back();
    assert_eq!(it.debug_string(), "IterMut([1], [2])");
}

#[test]
fn writes_from_both_ends_land_in_place() {
    let mut a = [0, 0];
    let mut b = [0, 0, 0];
    {
        let mut it = DoubleSliceMut::new(&mut a, &mut b).iter_mut();
        *it.next().unwrap() = 1;
        *it.next_back().unwrap() = 5;
        *it.next_back().unwrap() = 4;
        *it.next().unwrap() = 2;
        *it.next().unwrap() = 3;
        assert!(it.next().is_none());
    }
    assert_eq!(a, [1, 2]);
    assert_eq!(b, [3, 4, 5]);
}

#[test]
fn next_mut_keeps_the_split_when_the_first_part_is_used_up() {
    let mut a: [i32; 0] = [];
    let mut b = [1, 2];
    let mut it = DoubleSliceMut::new(&mut a, &mut b).iter_mut();
    assert_eq!(it.next().map(|x| *x), Some(1));
    assert_eq!(it.as_ref().into_slices(), (&[][..], &[2][..]));
    let rest = it.into_slice();
    let (x, y) = rest.into_mut_slices();
    assert!(x.is_empty());
    assert_eq!(&*y, &[2]);
}
