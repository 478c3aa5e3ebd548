use game::protocol::{
    departure_from_axes, ghost_offsets_from_axes, ConnectionState, EntityKind, RegionCoords, Usize,
};

#[test]
fn connection_state_default_is_connecting() {
    assert_eq!(ConnectionState::default(), ConnectionState::Connecting);
}

#[test]
fn region_coords_new_and_key() {
    let r = RegionCoords::new(-3, 7);
    assert_eq!((r.x, r.z), (-3, 7));
    assert_eq!(r.key(), (-3, 7));
    assert_eq!(RegionCoords::from_key((4, -1)), RegionCoords::new(4, -1));
    assert_eq!(RegionCoords::default(), RegionCoords::new(0, 0));
}

#[test]
fn window_is_the_three_by_three_neighbourhood() {
    let w = RegionCoords::new(1, -2).window_3x3();
    assert_eq!(w.len(), 9);
    let mut expected = Vec::new();
    for dx in -1..=1 {
        for dz in -1..=1 {
            expected.push(RegionCoords::new(1 + dx, -2 + dz));
        }
    }
    assert_eq!(w, expected);
    assert!(w.contains(&RegionCoords::new(1, -2)));
    assert!(!w.contains(&RegionCoords::new(3, -2)));
}

#[test]
fn small_defaults() {
    assert_eq!(EntityKind::default(), EntityKind::Player);
    assert_eq!(Usize::default().get(), 0);
    assert_eq!(Usize::from(42usize).get(), 42);
}

#[test]
fn departure_needs_an_axis_past_the_edge() {
    assert_eq!(departure_from_axes(0, 0), None);
    assert_eq!(departure_from_axes(1, 0), Some((1, 0)));
    assert_eq!(departure_from_axes(-1, 1), Some((-1, 1)));
}

#[test]
fn ghost_offsets_come_x_edge_z_edge_corner() {
    assert!(ghost_offsets_from_axes(0, 0).is_empty());
    assert_eq!(ghost_offsets_from_axes(1, 0), vec![(1, 0)]);
    assert_eq!(ghost_offsets_from_axes(0, -1), vec![(0, -1)]);
    assert_eq!(ghost_offsets_from_axes(-1, 1), vec![(-1, 0), (0, 1), (-1, 1)]);
}
