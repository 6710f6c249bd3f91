use gridworld::V2i;
use gridworld::grid::Grid;
use gridworld::grid::region::Error;
use gridworld::grid::region::GridGen;
use gridworld::grid::region::Region;
use gridworld::grid::region::RegionConfig;

#[test]
fn initial_allocs() {
    let mut r = RegionConfig::<isize>::default().build().expect("Failed to build Region");
    assert_eq!(r.grids(), 0);
    r.get_mut(V2i(0, 0));
    assert_eq!(r.grids(), 1);
    r.get_mut(r.grid_size().sub(V2i(1, 1)));
    assert_eq!(r.grids(), 1);
}

const SIZE: isize = 5;

#[test]
fn region_storage() {
    let mut r = RegionConfig::<isize>::default().build().expect("Failed to build Region");
    assert_eq!(r.grids(), 0);
    for x in -SIZE..SIZE {
        for y in -SIZE..SIZE {
            *r.get_mut(V2i(x, y).mul(r.grid_size())) = 2 * SIZE * x + y;
        }
    }
    println!("region: {:?}", r);
    assert_eq!(r.grids(), (4 * SIZE * SIZE) as usize);
    for x in -SIZE..SIZE {
        for y in -SIZE..SIZE {
            assert_eq!(r.get(V2i(x, y).mul(r.grid_size())).unwrap(), &(2 * SIZE * x + y));
        }
    }
}

#[derive(Debug)]
struct CellNormGen;

impl GridGen<isize> for CellNormGen {
    fn generate(&mut self, _i: V2i, _r: V2i, o: V2i, d: V2i) -> Grid<isize> {
        Grid::from_generator(|g: V2i| g.l1(), o, d).expect("Failed to generate Grid")
    }
}

#[derive(Debug)]
struct ChunkNormGen;

impl GridGen<isize> for ChunkNormGen {
    fn generate(&mut self, _i: V2i, r: V2i, o: V2i, d: V2i) -> Grid<isize> {
        Grid::from_generator(|_g: V2i| r.l1(), o, d).expect("Failed to generate Grid")
    }
}

#[derive(Debug)]
struct InvokerNormGen;

impl GridGen<isize> for InvokerNormGen {
    fn generate(&mut self, i: V2i, _r: V2i, o: V2i, d: V2i) -> Grid<isize> {
        Grid::from_generator(|_g: V2i| i.l1(), o, d).expect("Failed to generate Grid")
    }
}

#[test]
fn generator_grid() {
    let mut r = RegionConfig::<isize>::default()
        .with_grid_gen(Some(CellNormGen))
        .build()
        .expect("Failed to build Region");

    let mut it = gridworld::R2i::origin_dim(V2i(0, 0), r.grid_size()).iter();
    while let Some(pt) = it.next() {
        assert_eq!(*r.get_or_create(pt), pt.l1());
    }

    println!("{:?}", r);
}

#[test]
fn generator_region() {
    let mut r = RegionConfig::<isize>::default()
        .with_grid_gen(Some(ChunkNormGen))
        .build()
        .expect("Failed to build Region");

    let mut it = gridworld::R2i::origin_dim(V2i(0, 0), r.grid_size()).iter();
    while let Some(pt) = it.next() {
        assert_eq!(*r.get_or_create(pt), 0);
    }
    let mut it = gridworld::R2i::origin_dim(r.grid_size(), r.grid_size()).iter();
    while let Some(pt) = it.next() {
        assert_eq!(*r.get_or_create(pt), 2);
    }

    println!("{:?}", r);
}

#[test]
fn generator_invoker() {
    let mut r = RegionConfig::<isize>::default()
        .with_grid_gen(Some(InvokerNormGen))
        .build()
        .expect("Failed to build Region");

    let ipt = V2i(5, 5);

    r.get_or_create(ipt);

    let mut it = gridworld::R2i::origin_dim(V2i(0, 0), r.grid_size()).iter();
    while let Some(pt) = it.next() {
        assert_eq!(*r.get_or_create(pt), ipt.l1());
    }

    println!("{:?}", r);
}

#[test]
fn chunk_index_and_offset_recompose() {
    let r = RegionConfig::<isize>::default().build().expect("build");
    let gs = r.grid_size();
    for &p in
        &[V2i(0, 0), V2i(31, 31), V2i(32, 32), V2i(-1, -1), V2i(-32, -33), V2i(100, -100)]
    {
        let ci = r.get_grid_index(p);
        let off = r.get_grid_offset(p);
        assert!(0 <= off.0 && off.0 < gs.0);
        assert!(0 <= off.1 && off.1 < gs.1);
        assert_eq!(ci.mul(gs).add(off), p);
    }
    assert_eq!(r.get_grid_index(V2i(-1, -1)), V2i(-1, -1));
    assert_eq!(r.get_grid_offset(V2i(-1, -1)), V2i(31, 31));
}

#[test]
fn non_positive_chunk_size_refused() {
    let r = RegionConfig::<isize>::default().with_grid_size(V2i(0, 32)).build();
    assert_eq!(r.unwrap_err(), Error::NonPositiveDim(V2i(0, 32)));
    let r = RegionConfig::<isize>::default().with_grid_size(V2i(8, -2)).build();
    assert_eq!(r.unwrap_err(), Error::NonPositiveDim(V2i(8, -2)));
}

#[test]
fn absent_before_write_present_after() {
    let mut r: Region<isize> = RegionConfig::default().build().expect("build");
    let p = V2i(-40, 70);
    assert!(r.get(p).is_none());
    assert!(r.get_grid(p).is_none());
    assert_eq!(r.grids(), 0);
    *r.get_mut(p) = 9;
    assert_eq!(r.grids(), 1);
    assert_eq!(r.get(p), Some(&9));
    assert!(r.get_grid(p).is_some());
    *r.get_mut(p.add(V2i(1, 0))) = 10;
    assert_eq!(r.grids(), 1);
}

#[test]
fn round_trip_across_chunks_and_signs() {
    let mut r: Region<isize> = RegionConfig::default().build().expect("build");
    let pts = [V2i(0, 0), V2i(31, 31), V2i(32, 31), V2i(-1, 0), V2i(-64, -64), V2i(500, -321)];
    for (k, &p) in pts.iter().enumerate() {
        *r.get_mut(p) = 1000 + k as isize;
    }
    for (k, &p) in pts.iter().enumerate() {
        assert_eq!(r.get(p), Some(&(1000 + k as isize)));
    }
}

#[test]
fn generator_deterministic_per_chunk() {
    let mut ra = RegionConfig::<isize>::default()
        .with_grid_gen(Some(CellNormGen))
        .build()
        .expect("build");
    let mut rb = RegionConfig::<isize>::default()
        .with_grid_gen(Some(CellNormGen))
        .build()
        .expect("build");
    let mut it = gridworld::R2i::origin_dim(V2i(-32, -32), V2i(8, 8)).iter();
    while let Some(pt) = it.next() {
        assert_eq!(r_value(&mut ra, pt), r_value(&mut rb, pt));
    }
}

fn r_value(r: &mut Region<isize, CellNormGen>, p: V2i) -> isize {
    *r.get_or_create(p)
}
