use distance_transform::grid::GenericGrid;

#[test]
fn grid_new_dimensions_and_defaults() {
    let g: GenericGrid<u64> = GenericGrid::new(3, 4);
    assert_eq!(g.width(), 3);
    assert_eq!(g.height(), 4);
    for x in 0..3 {
        for y in 0..4 {
            assert_eq!(*g.get(x, y).unwrap(), 0u64);
        }
    }
}

#[test]
fn grid_set_and_get() {
    let mut g: GenericGrid<u64> = GenericGrid::new(4, 3);
    g.set(2, 1, 42);
    g.set(0, 0, 7);
    g.set(3, 2, 9);
    assert_eq!(*g.get(2, 1).unwrap(), 42);
    assert_eq!(*g.get(0, 0).unwrap(), 7);
    assert_eq!(*g.get(3, 2).unwrap(), 9);
    assert_eq!(*g.get(1, 1).unwrap(), 0);
    assert_eq!(*g.get_unchecked(2, 1), 42);
}

#[test]
fn grid_get_out_of_bounds() {
    let g: GenericGrid<bool> = GenericGrid::new(2, 2);
    assert!(g.get(2, 0).is_none());
    assert!(g.get(0, 2).is_none());
    assert!(g.get(5, 5).is_none());
    assert!(g.get(1, 1).is_some());
}

#[test]
fn grid_to_vec_layout() {
    // grid[x, y] lands at vec[y * width + x]
    let mut g: GenericGrid<u64> = GenericGrid::new(3, 2);
    g.set(0, 0, 1);
    g.set(1, 0, 2);
    g.set(2, 0, 3);
    g.set(0, 1, 4);
    g.set(1, 1, 5);
    g.set(2, 1, 6);
    assert_eq!(g.to_vec(), vec![1, 2, 3, 4, 5, 6]);
}

#[test]
fn grid_iter_positions_and_values() {
    let mut g: GenericGrid<u64> = GenericGrid::new(2, 2);
    g.set(0, 0, 10);
    g.set(1, 0, 11);
    g.set(0, 1, 12);
    g.set(1, 1, 13);
    let mut it = g.iter();
    assert_eq!(it.next().map(|(x, y, v)| (x, y, *v)), Some((0, 0, 10)));
    assert_eq!(it.next().map(|(x, y, v)| (x, y, *v)), Some((1, 0, 11)));
    assert_eq!(it.next().map(|(x, y, v)| (x, y, *v)), Some((0, 1, 12)));
    assert_eq!(it.next().map(|(x, y, v)| (x, y, *v)), Some((1, 1, 13)));
    assert!(it.next().is_none());
}

#[test]
fn grid_empty_iter() {
    let g: GenericGrid<u64> = GenericGrid::new(0, 3);
    let mut it = g.iter();
    assert!(it.next().is_none());
}
