use geodesy::Coor4D;

#[test]
fn array() {
    let b = Coor4D::raw(7., 8., 9., 10.);
    let c = [
        b.nth_unchecked(0),
        b.nth_unchecked(1),
        b.nth_unchecked(2),
        b.nth_unchecked(3),
        f64::NAN,
        f64::NAN,
    ];
    assert_eq!(b.nth_unchecked(0), c[0]);
}

#[test]
fn new_fills_every_element() {
    let a = Coor4D::new(12.5);
    assert_eq!(a.0, [12.5; 4]);
    assert_eq!(a.dim(), 4);
}

#[test]
fn raw_keeps_order() {
    let a = Coor4D::raw(1, 2, 3, 4);
    assert_eq!(a.0, [1, 2, 3, 4]);
    assert_eq!(a.nth_unchecked(2), 3);
}

#[test]
fn set_nth_changes_one_element() {
    let mut a = Coor4D::raw(1., 2., 3., 4.);
    a.set_nth_unchecked(1, 55.);
    assert_eq!(a.0, [1., 55., 3., 4.]);
}
