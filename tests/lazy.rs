use croaring::{Bitmap, LazyOwnedBitmap};

fn ors() -> Vec<Bitmap> {
    vec![
        Bitmap::of(&[99]),
        Bitmap::of(&[1, 2, 5, 10]),
        Bitmap::create(),
        Bitmap::of(&[1, 30, 100]),
        Bitmap::of(&[10001, 10002, 10005, 10010]),
        Bitmap::of(&[10001, 10030, 10100]),
        Bitmap::from_range(200000..300000),
    ]
}

fn subs() -> Vec<Bitmap> {
    vec![
        Bitmap::of(&[5]),
        Bitmap::of(&[1, 1000, 1001]),
        Bitmap::of(&[10005]),
        Bitmap::of(&[10001, 11000, 11001]),
        Bitmap::from_range(210000..290000),
    ]
}

#[test]
fn test_lazy() {
    let bitmap = Bitmap::create();
    let bitmaps_to_or = ors();
    let bitmaps_to_sub = subs();

    let mut lazy = bitmap.into_lazy();
    for b in &bitmaps_to_or {
        lazy |= b;
    }
    for b in &bitmaps_to_sub {
        lazy -= b;
    }
    let bitmap = lazy.into_inner();

    let mut bitmap2 = Bitmap::of(&[99]);
    for b in &bitmaps_to_or {
        bitmap2.or_inplace(b);
    }
    for b in &bitmaps_to_sub {
        bitmap2.andnot_inplace(b);
    }
    assert_eq!(bitmap, bitmap2);
}

#[test]
fn test_lazy_owned() {
    let bitmap = Bitmap::create();
    let bitmaps_to_or = ors();
    let bitmaps_to_sub = subs();

    let mut lazy = bitmap.into_lazy();
    for b in bitmaps_to_or.clone().into_iter() {
        lazy |= b;
    }
    for b in &bitmaps_to_sub {
        lazy -= b;
    }
    let bitmap = lazy.into_inner();

    let mut bitmap2 = Bitmap::of(&[99]);
    for b in &bitmaps_to_or {
        bitmap2.or_inplace(b);
    }
    for b in &bitmaps_to_sub {
        bitmap2.andnot_inplace(b);
    }
    assert_eq!(bitmap, bitmap2);
}

#[test]
fn test_lazy_and() {
    let bitmaps1 = [
        Bitmap::of(&[1, 2, 5, 10]),
        Bitmap::of(&[1, 30, 100]),
        Bitmap::of(&[10001, 10002, 10005, 10010]),
        Bitmap::of(&[10001, 10030, 10100]),
        Bitmap::from_range(200000..300000),
    ];
    let bitmaps2 = [
        Bitmap::of(&[5]),
        Bitmap::of(&[1, 1000, 1001]),
        Bitmap::of(&[10005]),
        Bitmap::of(&[10001, 11000, 11001]),
        Bitmap::from_range(210000..290000),
    ];

    let mut bitmap1l = LazyOwnedBitmap::create();
    for b in &bitmaps1 {
        bitmap1l |= b;
    }
    let mut bitmap2l = LazyOwnedBitmap::create();
    for b in &bitmaps2 {
        bitmap2l |= b;
    }

    let lazy_result = &bitmap1l & &bitmap2l;

    let mut bitmap1 = Bitmap::create();
    for b in &bitmaps1 {
        bitmap1.or_inplace(b);
    }
    let mut bitmap2 = Bitmap::create();
    for b in &bitmaps2 {
        bitmap2.or_inplace(b);
    }

    let result = bitmap1.and(&bitmap2);
    assert_eq!(lazy_result, result);
}

#[test]
fn lazy_chain_scenario_from_ninety_nine() {
    let mut lazy = Bitmap::of(&[99]).into_lazy();
    lazy |= &Bitmap::of(&[1, 2, 5, 10]);
    lazy |= &Bitmap::create();
    lazy |= &Bitmap::of(&[1, 30, 100]);
    lazy -= &Bitmap::of(&[5]);
    lazy -= &Bitmap::of(&[1, 1000, 1001]);
    let bitmap = lazy.into_inner();
    assert_eq!(bitmap.to_vec(), vec![2, 10, 30, 99, 100]);
}

#[test]
fn lazy_batch_matches_eager_with_xor() {
    let mut bitmap = Bitmap::of(&[99]);
    let to_or = [Bitmap::of(&[1, 2, 5, 10]), Bitmap::of(&[1, 30, 100])];
    let to_xor = [Bitmap::of(&[5]), Bitmap::of(&[1, 1000, 1001])];
    bitmap.lazy_batch(|lazy| {
        for b in &to_or {
            *lazy |= b;
        }
        for b in &to_xor {
            *lazy ^= b;
        }
    });
    let mut eager = Bitmap::of(&[99]);
    for b in &to_or {
        eager.or_inplace(b);
    }
    for b in &to_xor {
        eager.xor_inplace(b);
    }
    assert_eq!(bitmap, eager);
    assert_eq!(bitmap.to_vec(), vec![2, 10, 30, 99, 100, 1000, 1001]);
}

#[test]
fn lazy_batch_returns_closure_result() {
    let mut bitmap = Bitmap::create();
    let to_or = [Bitmap::of(&[1, 2, 5, 10]), Bitmap::of(&[1, 30, 100])];
    let total_added = bitmap.lazy_batch(|lazy| {
        let mut total = 0;
        for b in &to_or {
            lazy.or_inplace(b, true);
            total += b.cardinality();
        }
        total
    });
    assert_eq!(total_added, 7);
    assert_eq!(bitmap.to_vec(), vec![1, 2, 5, 10, 30, 100]);
    assert_eq!(bitmap.cardinality(), 6);
}

#[test]
fn lazy_batch_chained_calls_and_difference() {
    let mut bitmap = Bitmap::of(&[7, 8]);
    let a = Bitmap::of(&[1, 8]);
    let b = Bitmap::of(&[1, 2]);
    let c = Bitmap::of(&[7]);
    bitmap.lazy_batch(|lazy| {
        lazy.or_inplace(&a, false).xor_inplace(&b);
        *lazy -= &c;
        assert!(!lazy.is_empty());
    });
    assert_eq!(bitmap.to_vec(), vec![2, 8]);
}

#[test]
fn lazy_owned_add_and_is_empty() {
    let mut lazy = LazyOwnedBitmap::create();
    assert!(lazy.is_empty());
    lazy.add(9);
    lazy.add(3);
    lazy.add(9);
    assert!(!lazy.is_empty());
    let bitmap = lazy.into_inner();
    assert_eq!(bitmap.to_vec(), vec![3, 9]);
    assert_eq!(bitmap.cardinality(), 2);
}

#[test]
fn lazy_or_owned_empties_the_operand() {
    let mut lazy = Bitmap::of(&[4]).into_lazy();
    let mut other = Bitmap::of(&[1, 4, 6]);
    lazy.or_inplace_owned(&mut other, false);
    assert!(other.is_empty());
    let mut more = LazyOwnedBitmap::create();
    more.add(2);
    lazy |= &more;
    lazy |= more;
    lazy |= Bitmap::of(&[5]);
    assert_eq!(lazy.into_inner().to_vec(), vec![1, 2, 4, 5, 6]);
}

#[test]
fn repair_of_a_normal_bitmap_changes_nothing() {
    let mut bitmap = Bitmap::of(&[30, 1, 7, 7]);
    let before = bitmap.clone();
    bitmap.repair();
    assert_eq!(bitmap, before);
    assert_eq!(bitmap.cardinality(), 3);
    assert_eq!(bitmap.to_vec(), vec![1, 7, 30]);
}

#[test]
fn lazy_and_of_disjoint_is_empty() {
    let mut a = LazyOwnedBitmap::create();
    a.add(1);
    let mut b = LazyOwnedBitmap::create();
    b.add(2);
    assert!((&a & &b).is_empty());
}
