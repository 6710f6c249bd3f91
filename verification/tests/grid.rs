use gridworld::V2i;
use gridworld::grid::Error;
use gridworld::grid::Grid;

const SIZE: isize = 5;

fn testing_grid() -> Grid<isize> {
    Grid::from_default(V2i(0, 0), V2i(SIZE, SIZE)).expect("Creating the test grid failed")
}

#[test]
fn size() {
    assert_eq!(testing_grid().array().len(), SIZE as usize * SIZE as usize);
}

#[test]
fn index_mapping() {
    let grid = testing_grid();
    for i in 0..SIZE * SIZE {
        let pt = grid.v2i_of(i as usize).expect("Failed to get point");
        println!("index {:?} v2i {:?}", i, pt);
        assert_eq!(i as usize, grid.index_of(pt).expect("Failed to get index"));
    }
}

#[test]
fn mod_storage() {
    let mut grid = testing_grid();
    for i in 0..SIZE * SIZE {
        grid.array_mut()[i as usize] = i;
    }
    for i in 0..SIZE * SIZE {
        let pt = grid.v2i_of(i as usize).expect("Failed to get point");
        let val = *grid.get(pt).expect("Failed to index");
        println!("i {:?} v {:?} val {:?}", i, pt, val);
        assert_eq!(i, val);
    }
}

#[test]
fn offset() {
    let grid: Grid<isize> =
        Grid::from_default(V2i(-3, -3), V2i(SIZE, SIZE)).expect("Creating grid failed");
    for i in 0..SIZE * SIZE {
        let pt = grid.v2i_of(i as usize).expect("Failed to get point");
        println!("offset i {:?} pt {:?}", i, pt);
        assert_eq!(i as usize, grid.index_of(pt).expect("Failed to get index"));
    }
}

#[test]
fn bad_dim_on_any_count_mismatch() {
    let r = Grid::from_vec(vec![1, 2, 3], V2i(0, 0), V2i(2, 2));
    assert_eq!(r.unwrap_err(), Error::BadDim(V2i(2, 2), 3));
    let r = Grid::<isize>::from_vec(Vec::new(), V2i(0, 0), V2i(1, 1));
    assert_eq!(r.unwrap_err(), Error::BadDim(V2i(1, 1), 0));
    let r = Grid::from_boxed_slice(vec![7].into_boxed_slice(), V2i(0, 0), V2i(0, 3));
    assert_eq!(r.unwrap_err(), Error::BadDim(V2i(0, 3), 1));
}

#[test]
fn negative_dim_refused() {
    let r = Grid::from_vec(vec![1, 2], V2i(0, 0), V2i(-1, 2));
    assert_eq!(r.unwrap_err(), Error::NegativeDim(V2i(-1, 2)));
}

#[test]
fn out_of_bounds_and_bad_index() {
    let mut grid = testing_grid();
    assert_eq!(grid.get(V2i(5, 0)).unwrap_err(), Error::OutOfBounds(V2i(5, 0)));
    assert_eq!(grid.get_mut(V2i(0, -1)).unwrap_err(), Error::OutOfBounds(V2i(0, -1)));
    assert_eq!(grid.index_of(V2i(-1, 0)).unwrap_err(), Error::OutOfBounds(V2i(-1, 0)));
    assert_eq!(grid.v2i_of(25).unwrap_err(), Error::BadIndex(25));
    assert!(grid.contains(V2i(4, 4)));
    assert!(!grid.contains(V2i(4, 5)));
}

#[test]
fn generator_row_major() {
    let grid =
        Grid::from_generator(|p: V2i| 10 * p.1 + p.0, V2i(0, 0), V2i(3, 2)).expect("generate");
    assert_eq!(grid.array(), &[0, 1, 2, 10, 11, 12]);
    let r = Grid::from_generator(|p: V2i| p.0, V2i(0, 0), V2i(-2, 2));
    assert_eq!(r.unwrap_err(), Error::NegativeDim(V2i(-2, 2)));
}

#[test]
fn grid_rect() {
    let grid: Grid<isize> =
        Grid::from_default(V2i(-3, -3), V2i(SIZE, SIZE)).expect("Creating grid failed");
    let r = grid.rect();
    assert_eq!(r.origin(), V2i(-3, -3));
    assert_eq!(r.dim(), V2i(SIZE, SIZE));
}

#[test]
fn write_through_get_mut() {
    let mut grid = testing_grid();
    *grid.get_mut(V2i(2, 3)).expect("cell") = 42;
    assert_eq!(*grid.get(V2i(2, 3)).expect("cell"), 42);
    assert_eq!(*grid.get(V2i(3, 2)).expect("cell"), 0);
}
