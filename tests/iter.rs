use croaring::Bitmap;

#[test]
fn iter_ascending() {
    let mut bitmap = Bitmap::create();
    bitmap.add(4);
    bitmap.add(3);
    bitmap.add(2);
    let mut iterator = bitmap.iter();
    assert_eq!(iterator.next(), Some(2));
    assert_eq!(iterator.next(), Some(3));
    assert_eq!(iterator.next(), Some(4));
    assert_eq!(iterator.next(), None);
    assert_eq!(iterator.next(), None);
}

#[test]
fn next_many_interleaved_with_next() {
    let mut bitmap = Bitmap::from_range(0..100);
    bitmap.add(222);
    bitmap.add(555);
    let mut buf = [0u32; 100];
    let mut iter = bitmap.iter();
    assert_eq!(iter.next_many(&mut buf), 100);
    for (i, item) in buf.iter().enumerate() {
        assert_eq!(*item, i as u32);
    }
    assert_eq!(iter.next(), Some(222));
    assert_eq!(iter.next_many(&mut buf), 1);
    assert_eq!(buf[0], 555);
    assert_eq!(buf[1], 1);
    assert_eq!(iter.next(), None);
    assert_eq!(iter.next_many(&mut buf), 0);
}

#[test]
fn forward_and_backward_agree() {
    let bitmap = Bitmap::of(&[40, 3, 17, 99, 0, 65535, 4000000000]);
    let mut it = bitmap.iter();
    let mut forward = Vec::new();
    while let Some(v) = it.next() {
        forward.push(v);
    }
    let mut it = bitmap.iter();
    let mut backward = Vec::new();
    while let Some(v) = it.next_back() {
        backward.push(v);
    }
    backward.reverse();
    assert_eq!(forward, backward);
    assert_eq!(forward, vec![0, 3, 17, 40, 99, 65535, 4000000000]);
}

#[test]
fn cursors_are_independent() {
    let bitmap = Bitmap::of(&[1, 2, 3]);
    let mut it = bitmap.iter();
    assert_eq!(it.next_back(), Some(3));
    assert_eq!(it.next(), Some(1));
    assert_eq!(it.next_back(), Some(2));
    assert_eq!(it.next_back(), Some(1));
    assert_eq!(it.next_back(), None);
    assert_eq!(it.next(), Some(2));
    assert_eq!(it.next(), Some(3));
    assert_eq!(it.next(), None);
}

#[test]
fn bulk_reads_match_single_steps() {
    let bitmap = Bitmap::of(&[5, 1, 9, 12, 100, 7, 3, 50, 51, 52]);
    let mut single = Vec::new();
    let mut it = bitmap.iter();
    while let Some(v) = it.next() {
        single.push(v);
    }
    for size in [1usize, 3, 4, 7, 10, 64] {
        let mut buf = vec![0u32; size];
        let mut it = bitmap.iter();
        let mut bulk = Vec::new();
        loop {
            let n = it.next_many(&mut buf);
            if n == 0 {
                break;
            }
            bulk.extend_from_slice(&buf[..n]);
        }
        assert_eq!(bulk, single);
    }
}

#[test]
fn empty_buffer_reads_nothing() {
    let bitmap = Bitmap::of(&[1, 2]);
    let mut it = bitmap.iter();
    let mut buf: [u32; 0] = [];
    assert_eq!(it.next_many(&mut buf), 0);
    assert_eq!(it.next(), Some(1));
}

#[test]
fn interleaving_skips_and_repeats_nothing() {
    let bitmap = Bitmap::from_range(10..30);
    let mut it = bitmap.iter();
    let mut out = Vec::new();
    let mut buf = [0u32; 3];
    let mut turn = 0usize;
    loop {
        if turn % 2 == 0 {
            match it.next() {
                Some(v) => out.push(v),
                None => break,
            }
        } else {
            let n = it.next_many(&mut buf);
            if n == 0 {
                break;
            }
            out.extend_from_slice(&buf[..n]);
        }
        turn += 1;
    }
    assert_eq!(out, (10..30).collect::<Vec<u32>>());
}

#[test]
fn owning_iterator_walks_both_ways() {
    let make = || {
        let bitmap = Bitmap::of(&[8, 2, 5]);
        bitmap.into_iter()
    };
    let mut it = make();
    assert_eq!(it.next(), Some(2));
    assert_eq!(it.next_back(), Some(8));
    let mut buf = [0u32; 4];
    assert_eq!(it.next_many(&mut buf), 2);
    assert_eq!(&buf[..2], &[5, 8]);
    assert_eq!(it.next(), None);
    assert_eq!(it.next_back(), Some(5));
    assert_eq!(it.next_back(), Some(2));
    assert_eq!(it.next_back(), None);
}

#[test]
fn from_iter_matches_extend() {
    let items = [9u32, 3, 3, 1, 9, 4000000000, 0];
    let built = Bitmap::from_iter(&items);
    let mut extended = Bitmap::create();
    extended.extend(&items);
    assert_eq!(built, extended);
    assert_eq!(built.to_vec(), vec![0, 1, 3, 9, 4000000000]);
    assert_eq!(built.cardinality(), 5);
    assert!(built.contains(3));
    assert!(!built.contains(2));
}

#[test]
fn empty_bitmap_iterates_nothing() {
    let bitmap = Bitmap::create();
    assert!(bitmap.is_empty());
    let mut it = bitmap.iter();
    assert_eq!(it.next(), None);
    assert_eq!(it.next_back(), None);
    let mut buf = [0u32; 2];
    assert_eq!(it.next_many(&mut buf), 0);
    assert_eq!(Bitmap::from_range(5..5).cardinality(), 0);
}

#[test]
fn eager_operations() {
    let a = Bitmap::of(&[1, 2, 3, 4]);
    let b = Bitmap::of(&[3, 4, 5]);
    let mut u = a.clone();
    u.or_inplace(&b);
    assert_eq!(u.to_vec(), vec![1, 2, 3, 4, 5]);
    let mut x = a.clone();
    x.xor_inplace(&b);
    assert_eq!(x.to_vec(), vec![1, 2, 5]);
    let mut d = a.clone();
    d.andnot_inplace(&b);
    assert_eq!(d.to_vec(), vec![1, 2]);
    let mut i = a.clone();
    i.and_inplace(&b);
    assert_eq!(i.to_vec(), vec![3, 4]);
    assert_eq!(a.and(&b).to_vec(), vec![3, 4]);
}
