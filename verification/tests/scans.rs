use slice_iter::iter::{FoldWhile, SliceIter};

fn reference_position<T>(v: &[T], mut p: impl FnMut(&T) -> bool) -> Option<usize> {
    let mut i = 0;
    while i < v.len() {
        if p(&v[i]) {
            return Some(i);
        }
        i += 1;
    }
    None
}

fn reference_rposition<T>(v: &[T], mut p: impl FnMut(&T) -> bool) -> Option<usize> {
    let mut i = v.len();
    while i > 0 {
        i -= 1;
        if p(&v[i]) {
            return Some(i);
        }
    }
    None
}

#[test]
fn large_buffer_last_byte_set() {
    let mut buf = vec![0u8; 1_048_576];
    let n = buf.len();
    buf[n - 1] = 1;
    let mut it = SliceIter::<u8>::from_slice(buf.as_slice());
    assert!(!it.all(|x: &u8| *x == 0));
    let mut it = SliceIter::<u8>::from_slice(buf.as_slice());
    assert_eq!(it.position(|x: &u8| *x != 0), Some(1_048_575));
    let mut it = SliceIter::<u8>::from_slice(buf.as_slice()).unrolled();
    assert!(!it.all(|x: &u8| *x == 0));
    let mut it = SliceIter::<u8>::from_slice(buf.as_slice()).unrolled();
    assert_eq!(it.position(|x: &u8| *x != 0), Some(1_048_575));
}

#[test]
fn empty_buffer_scans() {
    let buf: Vec<u8> = Vec::new();
    let mut it = SliceIter::<u8>::from_slice(buf.as_slice());
    assert!(it.all(|_x: &u8| false));
    let mut it = SliceIter::<u8>::from_slice(buf.as_slice());
    assert!(!it.any(|_x: &u8| true));
    let mut it = SliceIter::<u8>::from_slice(buf.as_slice());
    assert_eq!(it.find(|_x: &u8| true), None);
    let mut it = SliceIter::<u8>::from_slice(buf.as_slice());
    assert_eq!(it.position(|_x: &u8| true), None);
    let mut it = SliceIter::<u8>::from_slice(buf.as_slice());
    assert_eq!(it.rposition(|_x: &u8| true), None);
}

#[test]
fn single_element_match() {
    let buf = [42u8];
    let mut it = SliceIter::<u8>::from_slice(&buf[..]);
    assert_eq!(it.position(|x: &u8| *x == 42), Some(0));
    let mut it = SliceIter::<u8>::from_slice(&buf[..]);
    assert_eq!(it.rposition(|x: &u8| *x == 42), Some(0));
}

#[test]
fn three_elements_under_unrolled_strategy() {
    let buf = [3i32, 1, 2];
    let mut it = SliceIter::<i32>::from_slice(&buf[..]).unrolled();
    assert_eq!(it.position(|x: &i32| *x == 2), Some(2));
    let mut it = SliceIter::<i32>::from_slice(&buf[..]).unrolled();
    assert_eq!(it.find(|x: &i32| *x < 3), Some(&1));
    let mut it = SliceIter::<i32>::from_slice(&buf[..]).unrolled();
    assert!(it.all(|x: &i32| *x <= 3));
    let mut it = SliceIter::<i32>::from_slice(&buf[..]).unrolled();
    assert!(it.any(|x: &i32| *x == 1));
    let mut it = SliceIter::<i32>::from_slice(&buf[..]).unrolled();
    assert_eq!(it.rposition(|x: &i32| *x < 3), Some(2));
}

#[test]
fn matches_reference_scan_on_mixed_buffer() {
    let buf: Vec<u32> = (0..53).map(|i| (i * 7) % 13).collect();
    let odd = |x: &u32| *x % 2 == 1;
    let mut it = SliceIter::<u32>::from_slice(buf.as_slice());
    assert_eq!(it.position(odd), reference_position(buf.as_slice(), odd));
    let mut it = SliceIter::<u32>::from_slice(buf.as_slice());
    assert_eq!(it.rposition(odd), reference_rposition(buf.as_slice(), odd));
    let mut it = SliceIter::<u32>::from_slice(buf.as_slice());
    assert_eq!(it.all(odd), buf.iter().all(|x| odd(x)));
    let mut it = SliceIter::<u32>::from_slice(buf.as_slice());
    assert_eq!(it.any(odd), buf.iter().any(|x| odd(x)));
    let mut it = SliceIter::<u32>::from_slice(buf.as_slice());
    assert_eq!(it.find(odd), buf.iter().find(|x| odd(*x)));
    let never = |x: &u32| *x > 100;
    let mut it = SliceIter::<u32>::from_slice(buf.as_slice());
    assert_eq!(it.position(never), None);
    let mut it = SliceIter::<u32>::from_slice(buf.as_slice());
    assert_eq!(it.rposition(never), None);
    let mut it = SliceIter::<u32>::from_slice(buf.as_slice());
    assert_eq!(it.find(never), None);
}

#[test]
fn matches_reference_scan_on_subslices() {
    let buf: Vec<u32> = (0..29).map(|i| (i * 5) % 11).collect();
    let target = |x: &u32| *x == 4;
    for lo in 0..buf.len() {
        for hi in lo..buf.len() {
            let sub = &buf[lo..hi];
            let mut it = SliceIter::<u32>::new(buf.as_slice(), lo, hi);
            assert_eq!(it.position(target), reference_position(sub, target));
            let mut it = SliceIter::<u32>::new(buf.as_slice(), lo, hi);
            assert_eq!(it.rposition(target), reference_rposition(sub, target));
            let mut it = SliceIter::<u32>::new(buf.as_slice(), lo, hi);
            assert_eq!(it.all(target), sub.iter().all(|x| target(x)));
        }
    }
}

#[test]
fn unrolled_and_default_strategies_agree() {
    let buf: Vec<u8> = (0..41).map(|i| (i * 3) % 7).collect();
    for needle in 0..8u8 {
        let p = move |x: &u8| *x == needle;
        let mut a = SliceIter::<u8>::from_slice(buf.as_slice());
        let mut b = SliceIter::<u8>::from_slice(buf.as_slice()).unrolled();
        assert_eq!(a.position(p), b.position(p));
        let mut a = SliceIter::<u8>::from_slice(buf.as_slice());
        let mut b = SliceIter::<u8>::from_slice(buf.as_slice()).unrolled();
        assert_eq!(a.rposition(p), b.rposition(p));
        let mut a = SliceIter::<u8>::from_slice(buf.as_slice());
        let mut b = SliceIter::<u8>::from_slice(buf.as_slice()).unrolled();
        assert_eq!(a.find(p), b.find(p));
        let mut a = SliceIter::<u8>::from_slice(buf.as_slice());
        let mut b = SliceIter::<u8>::from_slice(buf.as_slice()).unrolled();
        assert_eq!(a.all(p), b.all(p));
        let mut a = SliceIter::<u8>::from_slice(buf.as_slice());
        let mut b = SliceIter::<u8>::from_slice(buf.as_slice()).unrolled();
        assert_eq!(a.any(p), b.any(p));
    }
}

#[test]
fn rposition_reports_forward_index_of_last_match() {
    let buf = [1u8, 0, 1, 0, 1, 0];
    let mut it = SliceIter::<u8>::from_slice(&buf[..]);
    assert_eq!(it.rposition(|x: &u8| *x == 1), Some(4));
    let mut it = SliceIter::<u8>::from_slice(&buf[..]);
    assert_eq!(it.position(|x: &u8| *x == 1), Some(0));
}

#[test]
fn scans_stop_at_first_match() {
    let buf = [9u8, 2, 9, 4];
    let mut it = SliceIter::<u8>::from_slice(&buf[..]);
    assert_eq!(it.position(|x: &u8| *x == 9), Some(0));
    // the match and everything before it were consumed, the rest remains
    assert_eq!(it.as_slice(), &[2u8, 9, 4][..]);
    let mut it = SliceIter::<u8>::from_slice(&buf[..]);
    assert_eq!(it.rposition(|x: &u8| *x == 9), Some(2));
    assert_eq!(it.as_slice(), &[9u8, 2][..]);
}

#[test]
fn fold_while_early_exit_and_exhaustion() {
    let buf = [1u32, 2, 3, 4, 5, 6];
    // sum until the running total would pass 6: stops early
    let mut it = SliceIter::<u32>::from_slice(&buf[..]);
    let capped = it.fold_while(0u32, |acc: u32, x: &u32| {
        if acc + *x > 6 {
            FoldWhile::Done(acc)
        } else {
            FoldWhile::Continue(acc + *x)
        }
    });
    assert_eq!(capped, 6); // 1 + 2 + 3, then 4 would pass the cap
    assert_eq!(it.as_slice(), &[5u32, 6][..]);
    // full sum: runs to exhaustion
    let mut it = SliceIter::<u32>::from_slice(&buf[..]).unrolled();
    let total = it.fold_while(0u32, |acc: u32, x: &u32| FoldWhile::Continue(acc + *x));
    assert_eq!(total, 21);
    assert_eq!(it.len(), 0);
}

#[test]
fn rfold_while_consumes_from_the_back() {
    let buf = [1u32, 2, 3, 4];
    let mut it = SliceIter::<u32>::from_slice(&buf[..]);
    let first_from_back = it.rfold_while(0u32, |_acc: u32, x: &u32| FoldWhile::Done(*x));
    assert_eq!(first_from_back, 4);
    assert_eq!(it.as_slice(), &[1u32, 2, 3][..]);
    let mut it = SliceIter::<u32>::from_slice(&buf[..]).unrolled();
    let total = it.rfold_while(0u32, |acc: u32, x: &u32| FoldWhile::Continue(acc + *x));
    assert_eq!(total, 10);
    assert_eq!(it.len(), 0);
}
