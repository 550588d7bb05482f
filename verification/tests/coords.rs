use barricade::coord::{BCoord, PCoord};
use barricade::types::Team;

#[test]
fn pcoord_index_roundtrip() {
    for i in 0..81usize {
        let c = PCoord::from_index(i);
        assert!(c.is_in_bounds());
        assert_eq!(c.to_index(), i);
    }
    assert_eq!(PCoord::from_index(10), PCoord::new(1, 1));
    assert_eq!(PCoord::new(8, 8).to_index(), 80);
}

#[test]
fn bcoord_index_roundtrip() {
    for i in 0..64usize {
        let c = BCoord::from_index(i);
        assert!(c.is_in_bounds());
        assert_eq!(c.to_index(), i);
    }
    assert_eq!(BCoord::from_index(9), BCoord::new(1, 1));
    assert_eq!(BCoord::new(7, 7).to_index(), 63);
}

#[test]
fn off_board_index_is_max() {
    assert_eq!(PCoord::new(9, 0).to_index(), usize::MAX);
    assert_eq!(PCoord::new(-1, 3).to_index(), usize::MAX);
    assert_eq!(PCoord::new(0, 9).to_index(), usize::MAX);
    assert_eq!(BCoord::new(8, 0).to_index(), usize::MAX);
    assert_eq!(BCoord::new(0, -1).to_index(), usize::MAX);
    assert!(!PCoord::new(9, 9).is_in_bounds());
    assert!(PCoord::new(8, 8).is_in_bounds());
    assert!(!BCoord::new(8, 8).is_in_bounds());
    assert!(BCoord::new(7, 7).is_in_bounds());
}

#[test]
fn from_index_beyond_board() {
    // row-major with nine columns, also past the last row
    assert_eq!(PCoord::from_index(81), PCoord::new(0, 9));
    assert_eq!(BCoord::from_index(64), BCoord::new(0, 8));
    assert!(!PCoord::from_index(100).is_in_bounds());
}

#[test]
fn coordinate_conversions_keep_coordinates() {
    let p = PCoord::new(3, 5);
    assert_eq!(p.to_bcoord(), BCoord::new(3, 5));
    assert_eq!(p.to_bcoord().to_pcoord(), p);
    let b = BCoord::new(-2, 7);
    assert_eq!(b.to_pcoord(), PCoord::new(-2, 7));
}

#[test]
fn teams_are_opponents() {
    assert_eq!(Team::Red.opponent(), Team::Blue);
    assert_eq!(Team::Blue.opponent(), Team::Red);
}
