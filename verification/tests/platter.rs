use pltz::platter::{compute_geometry, lay_out, DiskGeometry};
use pltz::pattern::PatternType;

#[test]
fn geometry_rounds_tracks_up() {
    let g = compute_geometry(1000, 256);
    assert_eq!(g.tracks, 4);
    assert_eq!(g.sectors_per_track, 256);
    assert_eq!(g.capacity(), 1024);
    let e = compute_geometry(0, 64);
    assert_eq!(e.tracks, 0);
    assert_eq!(e.capacity(), 0);
}

#[test]
fn lay_out_pads_the_last_track() {
    let data: Vec<u8> = (1..=10u8).collect();
    let g = DiskGeometry { tracks: 3, sectors_per_track: 4 };
    let tracks = lay_out(&data, &g);
    assert_eq!(tracks, vec![vec![1, 2, 3, 4], vec![5, 6, 7, 8], vec![9, 10, 0, 0]]);
}

#[test]
fn pattern_tags_round_trip() {
    for tag in 0u8..=24 {
        match PatternType::from_u8(tag) {
            Some(p) => assert_eq!(p.tag(), tag),
            None => assert_eq!(tag, 12),
        }
    }
    assert!(PatternType::from_u8(25).is_none());
    assert_eq!(PatternType::from_u8(7), Some(PatternType::Raw));
}
