use slice_iter::iter::SliceIter;

#[test]
fn forward_stepping_yields_in_order() {
    let buf = [10u8, 20, 30];
    let mut it = SliceIter::<u8>::from_slice(&buf[..]);
    assert_eq!(it.len(), 3);
    assert_eq!(it.next(), Some(&10));
    assert_eq!(it.len(), 2);
    assert_eq!(it.next(), Some(&20));
    assert_eq!(it.len(), 1);
    assert_eq!(it.next(), Some(&30));
    assert_eq!(it.len(), 0);
    assert_eq!(it.next(), None);
    assert_eq!(it.len(), 0);
}

#[test]
fn backward_stepping_yields_in_reverse() {
    let buf = [10u8, 20, 30];
    let mut it = SliceIter::<u8>::from_slice(&buf[..]);
    assert_eq!(it.next_back(), Some(&30));
    assert_eq!(it.len(), 2);
    assert_eq!(it.next_back(), Some(&20));
    assert_eq!(it.next_back(), Some(&10));
    assert_eq!(it.next_back(), None);
    assert_eq!(it.len(), 0);
}

#[test]
fn interleaved_stepping_visits_each_element_once() {
    let buf: Vec<u16> = (0..9).collect();
    let mut it = SliceIter::<u16>::from_slice(buf.as_slice());
    let mut front: Vec<u16> = Vec::new();
    let mut back: Vec<u16> = Vec::new();
    let mut take_front = true;
    loop {
        if take_front {
            match it.next() {
                Some(e) => front.push(*e),
                None => break,
            }
        } else {
            match it.next_back() {
                Some(e) => back.push(*e),
                None => break,
            }
        }
        take_front = !take_front;
    }
    assert_eq!(it.len(), 0);
    assert_eq!(front.len() + back.len(), buf.len());
    back.reverse();
    front.extend(back);
    assert_eq!(front, buf);
}

#[test]
fn stepping_an_exhausted_iterator_is_a_no_op() {
    let buf = [7u8];
    let mut it = SliceIter::<u8>::from_slice(&buf[..]);
    assert_eq!(it.next(), Some(&7));
    assert_eq!(it.next(), None);
    assert_eq!(it.next_back(), None);
    assert_eq!(it.len(), 0);
}

#[test]
fn peek_does_not_advance() {
    let buf = [1u8, 2];
    let mut it = SliceIter::<u8>::from_slice(&buf[..]);
    assert_eq!(it.peek_next(), Some(&1));
    assert_eq!(it.peek_next(), Some(&1));
    assert_eq!(it.len(), 2);
    assert_eq!(it.next(), Some(&1));
    assert_eq!(it.peek_next(), Some(&2));
    assert_eq!(it.next(), Some(&2));
    assert_eq!(it.peek_next(), None);
}

#[test]
fn round_trip_through_as_slice() {
    let buf = [4u8, 5, 6, 7, 8];
    let mut it = SliceIter::<u8>::from_slice(&buf[..]);
    it.next();
    it.next_back();
    let view = it.as_slice();
    assert_eq!(view, &[5u8, 6, 7][..]);
    let mut rebuilt = SliceIter::<u8>::from_slice(view);
    assert_eq!(rebuilt.len(), it.len());
    assert_eq!(rebuilt.as_slice(), it.as_slice());
    assert_eq!(rebuilt.next(), Some(&5));
    assert_eq!(rebuilt.next_back(), Some(&7));
}

#[test]
fn new_with_offsets_selects_a_subrange() {
    let buf = [0u8, 1, 2, 3, 4, 5];
    let mut it = SliceIter::<u8>::new(&buf[..], 2, 5);
    assert_eq!(it.start(), 2);
    assert_eq!(it.end(), 5);
    assert_eq!(it.len(), 3);
    assert_eq!(it.as_slice(), &[2u8, 3, 4][..]);
    assert_eq!(it.next(), Some(&2));
    assert_eq!(it.start(), 3);
}

#[test]
fn unrolled_view_keeps_the_range() {
    let buf = [9u8, 8, 7];
    let it = SliceIter::<u8>::new(&buf[..], 1, 3);
    let un = it.unrolled();
    assert_eq!(un.start(), 1);
    assert_eq!(un.end(), 3);
    assert_eq!(un.as_slice(), &[8u8, 7][..]);
}

#[test]
fn indexed_access_reads_the_remaining_range() {
    let buf = [3u8, 1, 4, 1, 5];
    let mut it = SliceIter::<u8>::from_slice(&buf[..]);
    assert_eq!(*it.index(0), 3);
    assert_eq!(*it.index(4), 5);
    assert_eq!(*it.get_unchecked(2), 4);
    it.next();
    // indices count from the current front
    assert_eq!(*it.index(0), 1);
    assert_eq!(*it.get_unchecked(1), 4);
}

#[test]
fn unchecked_step_reads_then_advances() {
    let buf = [11u8, 22];
    let mut it = SliceIter::<u8>::from_slice(&buf[..]);
    assert_eq!(*it.next_unchecked(), 11);
    assert_eq!(it.len(), 1);
    assert_eq!(*it.next_unchecked(), 22);
    assert_eq!(it.len(), 0);
}

#[test]
fn default_iterator_is_empty_and_inert() {
    let mut it: SliceIter<u8> = Default::default();
    assert_eq!(it.len(), 0);
    assert_eq!(it.next(), None);
    assert_eq!(it.next_back(), None);
    assert_eq!(it.peek_next(), None);
    assert_eq!(it.as_slice(), &[] as &[u8]);
    let mut it2: SliceIter<u8> = Default::default();
    assert!(it2.all(|_x: &u8| false));
}

#[test]
fn size_hint_count_and_last() {
    let buf = [5u8, 6, 7];
    let it = SliceIter::<u8>::from_slice(&buf[..]);
    assert_eq!(it.size_hint(), (3, Some(3)));
    assert_eq!(it.count(), 3);
    let it = SliceIter::<u8>::from_slice(&buf[..]);
    assert_eq!(it.last(), Some(&7));
    let empty: Vec<u8> = Vec::new();
    let it = SliceIter::<u8>::from_slice(empty.as_slice());
    assert_eq!(it.last(), None);
    assert_eq!(it.size_hint(), (0, Some(0)));
}

#[test]
fn copies_are_independent_cursors() {
    let buf = [1u8, 2, 3];
    let mut it = SliceIter::<u8>::from_slice(&buf[..]);
    it.next();
    let copy = it;
    let cloned = it.clone();
    let mut a = copy;
    let mut b = cloned;
    assert_eq!(a.next(), Some(&2));
    assert_eq!(b.next(), Some(&2));
    // the original is untouched: it is a plain copy, not a shared cursor
    assert_eq!(it.len(), 2);
}
