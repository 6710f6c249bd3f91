use gridworld::V2i;

const SIZE: isize = 5;

fn collect_line(a: V2i, b: V2i) -> Vec<V2i> {
    let mut pts: Vec<V2i> = Vec::new();
    let mut it = gridworld::raster::line(a, b);
    while let Some(p) = it.next() {
        pts.push(p);
    }
    pts
}

#[test]
fn axes() {
    for &v in &[V2i(SIZE, 0), V2i(0, SIZE), V2i(-SIZE, 0), V2i(0, -SIZE)] {
        let pts = collect_line(V2i(0, 0), v);
        println!("zero to {:?}: {:?}", v, pts);
        assert!(pts.contains(&V2i(0, 0)));
        assert!(pts.contains(&v));
    }
}

#[test]
fn diagonals() {
    for &v in &[V2i(SIZE, SIZE), V2i(-SIZE, SIZE), V2i(-SIZE, -SIZE), V2i(SIZE, -SIZE)] {
        let pts = collect_line(V2i(0, 0), v);
        println!("zero to {:?}: {:?}", v, pts);
        assert!(pts.contains(&V2i(0, 0)));
        assert!(pts.contains(&v));
    }
}

#[test]
fn skews() {
    for &v in &[
        V2i(SIZE, 2 * SIZE),
        V2i(-3 * SIZE, 5 * SIZE),
        V2i(-2 * SIZE, -7 * SIZE),
        V2i(2 * SIZE, -SIZE),
    ] {
        let pts = collect_line(V2i(0, 0), v);
        println!("zero to {:?}: {:?}", v, pts);
        assert!(pts.contains(&V2i(0, 0)));
        assert!(pts.contains(&v));
    }
}

#[test]
fn any_endpoint() {
    for &(a, b) in &[
        (V2i(SIZE, 2 * SIZE), V2i(-SIZE, -2 * SIZE)),
        (V2i(-2 * SIZE, -3 * SIZE), V2i(0, SIZE)),
        (V2i(0, -SIZE), V2i(0, SIZE)),
        (V2i(3 * SIZE, SIZE), V2i(2 * SIZE, 2 * SIZE)),
    ] {
        let pts = collect_line(a, b);
        println!("{:?} to {:?}: {:?}", a, b, pts);
        assert!(pts.contains(&a));
        assert!(pts.contains(&b));
    }
}

#[test]
fn shallow_line_exact_points() {
    assert_eq!(
        collect_line(V2i(0, 0), V2i(3, 1)),
        vec![V2i(0, 0), V2i(1, 0), V2i(2, 1), V2i(3, 1)]
    );
}
