use rustversi::bitmap::Bitmap;

#[test]
fn shifting() {
    for s in (4..=10).filter(|&s| s % 2 == 0) {
        let bitmap = Bitmap::new(s).set(1, 1);
        assert_eq!(bitmap.shift_north(), Bitmap::new(s).set(1, 0));
        assert_eq!(bitmap.shift_south(), Bitmap::new(s).set(1, 2));
        assert_eq!(bitmap.shift_east(), Bitmap::new(s).set(2, 1));
        assert_eq!(bitmap.shift_west(), Bitmap::new(s).set(0, 1));
        assert_eq!(bitmap.shift_ne(), Bitmap::new(s).set(2, 0));
        assert_eq!(bitmap.shift_se(), Bitmap::new(s).set(2, 2));
        assert_eq!(bitmap.shift_sw(), Bitmap::new(s).set(0, 2));
        assert_eq!(bitmap.shift_nw(), Bitmap::new(s).set(0, 0));
    }
}

#[test]
fn weight() {
    let mut bitmap = Bitmap::new(10);
    assert_eq!(bitmap.popcount(), 0);
    bitmap = bitmap.set(1, 0);
    assert_eq!(bitmap.popcount(), 1);
    bitmap = bitmap.set(2, 0);
    assert_eq!(bitmap.popcount(), 2);
    bitmap = bitmap.set(0, 1);
    bitmap = bitmap.set(0, 1);
    bitmap = bitmap.set(0, 1);
    assert_eq!(bitmap.popcount(), 3);
    bitmap = bitmap.set(0, 2);
    assert_eq!(bitmap.popcount(), 4);
    bitmap = bitmap.unset(0, 2);
    assert_eq!(bitmap.popcount(), 3);
    bitmap = bitmap.unset(2, 0);
    bitmap = bitmap.unset(2, 0);
    bitmap = bitmap.unset(2, 0);
    assert_eq!(bitmap.popcount(), 2);
}

#[test]
fn full() {
    for s in (2..=10).filter(|&s| s % 2 == 0) {
        let full = Bitmap::full(s);
        for x in 0..s {
            for y in 0..s {
                assert!(full.get(x, y), "{} {} {}", s, x, y);
            }
        }
    }
}

#[test]
fn not() {
    for s in (2..=10).filter(|&s| s % 2 == 0) {
        let not_full = Bitmap::full(s).not();
        for x in 0..s {
            for y in 0..s {
                assert!(!not_full.get(x, y), "{} {} {}", s, x, y);
            }
        }
    }
}

#[test]
fn is_empty() {
    for s in (2..=10).filter(|&s| s % 2 == 0) {
        assert!(Bitmap::new(s).is_empty());
        assert!(Bitmap::full(s).not().is_empty());
    }
}

#[test]
fn iterator() {
    let mut bitmap = Bitmap::new(3);
    bitmap = bitmap.set(2, 0);
    bitmap = bitmap.set(0, 1);
    bitmap = bitmap.set(0, 2);
    bitmap = bitmap.set(1, 0);
    bitmap = bitmap.set(1, 1);
    assert_eq!(
        bitmap.cells(),
        vec!((1, 0), (2, 0), (0, 1), (1, 1), (0, 2))
    );
}

#[test]
fn full_counts_every_cell() {
    for s in (2..=10).filter(|&s| s % 2 == 0) {
        assert_eq!(Bitmap::full(s).popcount(), (s as u32) * (s as u32));
    }
}

#[test]
fn shifts_drop_cells_at_the_edges() {
    let n = 10;
    let corner = Bitmap::new(n).set(9, 9);
    assert!(corner.shift_east().intersection(&Bitmap::full(n)).is_empty());
    assert!(corner.shift_south().intersection(&Bitmap::full(n)).is_empty());
    assert!(corner.shift_se().intersection(&Bitmap::full(n)).is_empty());
    let origin = Bitmap::new(n).set(0, 0);
    assert!(origin.shift_west().is_empty());
    assert!(origin.shift_north().is_empty());
    assert!(origin.shift_nw().is_empty());
    let left = Bitmap::new(n).set(0, 5);
    assert!(left.shift_west().intersection(&Bitmap::full(n)).is_empty());
    assert_eq!(left.shift_east(), Bitmap::new(n).set(1, 5));
}

#[test]
fn set_algebra() {
    let a = Bitmap::new(4).set(0, 0).set(1, 1).set(2, 2);
    let b = Bitmap::new(4).set(1, 1).set(3, 3);
    assert_eq!(a.union(&b), Bitmap::new(4).set(0, 0).set(1, 1).set(2, 2).set(3, 3));
    assert_eq!(a.intersection(&b), Bitmap::new(4).set(1, 1));
    assert_eq!(a.setminus(&b), Bitmap::new(4).set(0, 0).set(2, 2));
    assert!(Bitmap::new(4).set(1, 1).subset_of(&a));
    assert!(!b.subset_of(&a));
    assert!(a.superset_of(&Bitmap::new(4).set(2, 2)));
    assert!(!a.superset_of(&b));
    assert!(a.not_empty());
    assert_eq!(a.not().popcount(), 13);
    assert_eq!(a.lowest(), Some((0, 0)));
    assert_eq!(b.lowest(), Some((1, 1)));
    assert_eq!(Bitmap::empty(4).lowest(), None);
    assert_eq!(Bitmap::new(6).size(), 6);
}

#[test]
fn shift_by_direction_index() {
    let b = Bitmap::new(6).set(2, 2);
    assert_eq!(b.shift(0), b.shift_north());
    assert_eq!(b.shift(1), b.shift_south());
    assert_eq!(b.shift(2), b.shift_east());
    assert_eq!(b.shift(3), b.shift_west());
    assert_eq!(b.shift(4), b.shift_ne());
    assert_eq!(b.shift(5), b.shift_se());
    assert_eq!(b.shift(6), b.shift_sw());
    assert_eq!(b.shift(7), b.shift_nw());
}

#[test]
fn next_takes_cells_in_reading_order() {
    let mut bitmap = Bitmap::new(3).set(2, 0).set(0, 1).set(0, 2).set(1, 0).set(1, 1);
    let mut seen = vec![];
    while let Some(c) = bitmap.next() {
        seen.push(c);
    }
    assert_eq!(seen, vec![(1, 0), (2, 0), (0, 1), (1, 1), (0, 2)]);
    assert!(bitmap.is_empty());
}

#[test]
fn bitmap_from_grid() {
    let grid = vec![vec![false, true, false], vec![true], vec![false, false, true]];
    let b = Bitmap::from_grid(&grid);
    assert_eq!(b, Bitmap::new(3).set(1, 0).set(0, 1).set(2, 2));
    assert_eq!(Bitmap::from_grid(&vec![]), Bitmap::new(0));
}
