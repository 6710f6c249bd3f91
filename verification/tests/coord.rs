use gridworld::R2i;
use gridworld::V2i;

#[test]
fn rect_iter() {
    let r = R2i::origin_dim(V2i(0, 0), V2i(5, 5));
    let mut v: Vec<V2i> = Vec::new();
    let mut it = r.iter();
    while let Some(p) = it.next() {
        v.push(p);
    }
    println!("{:?}", v);
    assert_eq!(v.len(), 25);
}

#[test]
fn rect_isct() {
    let ra = R2i::origin_dim(V2i(0, 0), V2i(5, 5));
    let rb = R2i::origin_dim(V2i(3, 3), V2i(5, 5));

    let isct = ra.intersect(rb).expect("No intersection");
    println!("{:?}", isct);
    assert_eq!(isct.dim(), V2i(2, 2));
}

#[test]
fn rect_isct_disjoint_edge() {
    let ra = R2i::origin_dim(V2i(0, 0), V2i(5, 5));
    let rb = R2i::origin_dim(V2i(5, 5), V2i(5, 5));

    assert!(ra.intersect(rb).is_none());
}

#[test]
fn rect_isct_disjoint() {
    let ra = R2i::origin_dim(V2i(0, 0), V2i(5, 5));
    let rb = R2i::origin_dim(V2i(8, 8), V2i(5, 5));

    assert!(ra.intersect(rb).is_none());
}

#[test]
fn rect_union() {
    let ra = R2i::origin_dim(V2i(0, 0), V2i(5, 5));
    let rb = R2i::origin_dim(V2i(3, 3), V2i(5, 5));

    let un = ra.union(rb);
    println!("{:?}", un);
    assert_eq!(un.dim(), V2i(8, 8));
}

#[test]
fn vector_norms() {
    assert_eq!(V2i(3, -4).l1(), 7);
    assert_eq!(V2i(3, -4).l2_sq(), 25);
    assert_eq!(V2i(3, -4).linf(), 3);
    assert_eq!(V2i(-7, 2).linf(), 2);
}

#[test]
fn vector_componentwise() {
    assert_eq!(V2i(3, -4).abs(), V2i(3, 4));
    assert_eq!(V2i(3, -4).swap(), V2i(-4, 3));
    assert_eq!(V2i(3, -4).cmin(), -4);
    assert_eq!(V2i(3, -4).cmax(), 3);
    assert_eq!(V2i(3, -4).min(V2i(1, 0)), V2i(1, -4));
    assert_eq!(V2i(3, -4).max(V2i(1, 0)), V2i(3, 0));
    assert_eq!(V2i(3, -4).add(V2i(1, 1)), V2i(4, -3));
    assert_eq!(V2i(3, -4).sub(V2i(1, 1)), V2i(2, -5));
    assert_eq!(V2i(3, -4).mul(V2i(2, 2)), V2i(6, -8));
    assert!(V2i(0, 1).is_q1());
    assert!(!V2i(0, 1).is_strict_q1());
    assert!(V2i(2, 1).is_strict_q1());
}

#[test]
fn euclid_division_negative() {
    assert_eq!(V2i(-1, -33).div_euclid(V2i(32, 32)), V2i(-1, -2));
    assert_eq!(V2i(-1, -33).rem_euclid(V2i(32, 32)), V2i(31, 31));
    assert_eq!(V2i(7, -7).div_euclid(V2i(3, 3)), V2i(2, -3));
    assert_eq!(V2i(7, -7).rem_euclid(V2i(3, 3)), V2i(1, 2));
}

#[test]
fn rect_normalises_negative_extent() {
    let r = R2i::origin_dim(V2i(2, 2), V2i(-2, 3));
    assert_eq!(r.origin(), V2i(0, 2));
    assert_eq!(r.dim(), V2i(2, 3));
    assert_eq!(r.opp(), V2i(2, 5));
}

#[test]
fn empty_rect_yields_nothing() {
    for &d in &[V2i(0, 5), V2i(5, 0), V2i(0, 0)] {
        let r = R2i::origin_dim(V2i(2, 2), d);
        let mut it = r.iter();
        assert!(it.next().is_none());
    }
}

#[test]
fn truncating_division() {
    assert_eq!(V2i(7, -7).div(V2i(2, 2)), V2i(3, -3));
    assert_eq!(V2i(-7, 7).div(V2i(-2, -2)), V2i(3, -3));
    assert_eq!(V2i(1, -1).div(V2i(3, 3)), V2i(0, 0));
}

#[test]
fn rect_helpers() {
    let r = R2i::origin_dim(V2i(1, 2), V2i(3, 5));
    assert_eq!(r.minor_rad(), 3);
    assert_eq!(r.major_rad(), 5);
    let t = r.translate(V2i(-1, -2));
    assert_eq!(t.origin(), V2i(0, 0));
    assert_eq!(t.dim(), V2i(3, 5));
    let sc = r.scale(V2i(2, -1));
    assert_eq!(sc.dim(), V2i(6, 5));
    assert_eq!(sc.origin(), V2i(1, -3));
    let g = r.grow(1);
    assert_eq!(g.origin(), V2i(0, 1));
    assert_eq!(g.dim(), V2i(6, 8));
}
