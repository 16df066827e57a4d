use rubiks_trainer::orient::{all_orient_data, generators, Orient, OrientData};
use rubiks_trainer::vec3::IVec3;

#[test]
fn group_has_24_elements() {
    assert_eq!(all_orient_data().len(), 24);
}

#[test]
fn identity_is_zero() {
    assert_eq!(Orient::identity().data(), OrientData::identity());
}

#[test]
fn composition_with_identity_is_self() {
    for i in 0..24 {
        let o = Orient(i);
        assert_eq!(o.compose(Orient::identity()), o);
        assert_eq!(Orient::identity().compose(o), o);
    }
}

#[test]
fn inverse_round_trip() {
    for i in 0..24 {
        let o = Orient(i);
        assert_eq!(o.compose(o.inverse()), Orient::identity());
        assert_eq!(o.inverse().compose(o), Orient::identity());
    }
}

#[test]
fn rx_cw_four_times_is_identity() {
    let g = generators();
    let r = g.rx_cw;
    let four = r.compose(r).compose(r).compose(r);
    assert_eq!(four, Orient::identity());
}

#[test]
fn rx_cw_rotates_y_to_z() {
    let g = generators();
    let out = g.rx_cw.apply(IVec3::new(0, 1, 0));
    assert_eq!(out, IVec3::new(0, 0, 1));
}

#[test]
fn ry_cw_rotates_z_to_x() {
    let g = generators();
    let out = g.ry_cw.apply(IVec3::new(0, 0, 1));
    assert_eq!(out, IVec3::new(1, 0, 0));
}

#[test]
fn rz_cw_rotates_x_to_y() {
    let g = generators();
    let out = g.rz_cw.apply(IVec3::new(1, 0, 0));
    assert_eq!(out, IVec3::new(0, 1, 0));
}

#[test]
fn apply_matches_compose_apply() {
    let g = generators();
    let a = g.rx_cw;
    let b = g.ry_cw;
    let v = IVec3::new(2, -3, 5);
    assert_eq!(a.compose(b).apply(v), a.apply(b.apply(v)));
}

#[test]
fn composition_is_associative_on_generators() {
    let g = generators();
    let (a, b, c) = (g.rx_cw, g.ry_2, g.rz_ccw);
    assert_eq!(a.compose(b).compose(c), a.compose(b.compose(c)));
}

#[test]
fn half_turn_generator_is_twice_the_quarter() {
    let g = generators();
    assert_eq!(g.ry_cw.compose(g.ry_cw), g.ry_2);
    assert_eq!(g.rz_cw.inverse(), g.rz_ccw);
}
