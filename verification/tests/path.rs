use gridworld::V2i;
use gridworld::grid::Grid;
use gridworld::grid::path::L1;
use gridworld::grid::path::Linf;
use gridworld::grid::path::Traversable;
use gridworld::grid::region::Region;
use gridworld::grid::region::RegionConfig;

#[derive(Debug, Default, Clone, Copy, PartialEq)]
struct Cell(isize);

impl Traversable for Cell {
    fn can_pass(&self) -> bool {
        self.0 == 0
    }
}

fn testing_grid() -> Grid<Cell> {
    let cells: Vec<Cell> = vec![
        1, 1, 1, 1, 1, //
        1, 0, 0, 0, 1, //
        1, 0, 1, 0, 1, //
        1, 0, 1, 0, 1, //
        1, 1, 1, 1, 1,
    ]
    .into_iter()
    .map(Cell)
    .collect();
    Grid::from_vec(cells, V2i(0, 0), V2i(5, 5)).expect("Creating the test grid failed")
}

#[test]
fn finds_linf_path() {
    let res = testing_grid().path::<Linf>(V2i(1, 3), V2i(3, 3));
    println!("path: {:?}", res);
    assert!(res.is_ok());
    let path = res.unwrap();
    assert!(path.len() == 5);
    assert_eq!(path.first().unwrap(), &V2i(1, 3));
    assert_eq!(path.last().unwrap(), &V2i(3, 3));
}

#[test]
fn finds_l1_path() {
    let res = testing_grid().path::<L1>(V2i(1, 3), V2i(3, 3));
    println!("path: {:?}", res);
    assert!(res.is_ok());
    let path = res.unwrap();
    assert!(path.len() == 7);
    assert_eq!(path.first().unwrap(), &V2i(1, 3));
    assert_eq!(path.last().unwrap(), &V2i(3, 3));
}

#[test]
fn fails_when_disconnected() {
    let mut grid = testing_grid();
    *grid.get_mut(V2i(2, 1)).expect("Failed to get cell") = Cell(1);
    let res = grid.path::<Linf>(V2i(1, 3), V2i(3, 3));
    println!("path: {:?}", res);
    assert!(res.is_err());
}

#[test]
fn works_on_regions() {
    let mut reg: Region<Cell> = RegionConfig::default().build().unwrap();
    let path = reg.path_mut::<Linf>(V2i(1, 3), V2i(3, 3));
    println!("path: {:?}", path);
    assert!(path.is_ok());
}

#[test]
fn read_only_region_path_needs_chunks() {
    let mut reg: Region<Cell> = RegionConfig::default().build().unwrap();
    // nothing is allocated yet, so every point is impassable to the
    // read-only search
    let res = reg.path::<Linf>(V2i(1, 3), V2i(3, 3));
    assert!(res.is_err());
    // touching the chunk allocates it, and the same query succeeds
    reg.get_mut(V2i(0, 0));
    let res = reg.path::<Linf>(V2i(1, 3), V2i(3, 3));
    assert!(res.is_ok());
}

#[test]
fn path_mut_allocates_touched_chunks() {
    let mut reg: Region<Cell> = RegionConfig::default().build().unwrap();
    assert_eq!(reg.grids(), 0);
    let res = reg.path_mut::<L1>(V2i(1, 1), V2i(40, 1));
    assert!(res.is_ok());
    let path = res.unwrap();
    assert_eq!(path.first().unwrap(), &V2i(1, 1));
    assert_eq!(path.last().unwrap(), &V2i(40, 1));
    // the walk crossed from the chunk of (1,1) into the chunk of (40,1)
    assert!(reg.grids() >= 2);
}

#[test]
fn trivial_path_when_start_is_goal() {
    let res = testing_grid().path::<L1>(V2i(1, 3), V2i(1, 3));
    assert_eq!(res.unwrap(), vec![V2i(1, 3)]);
}
