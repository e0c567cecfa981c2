use carnet::factorio::{DrivableTileMap, Rgb};

#[test]
fn new_map_has_no_drivable_tile() {
    let map = DrivableTileMap::new(3, 2);
    for x in 0..3 {
        for y in 0..2 {
            assert_eq!(map.drivable(x, y), Some(false));
        }
    }
    assert_eq!(map.drivable(3, 0), None);
    assert_eq!(map.drivable(0, 2), None);
}

#[test]
fn empty_map() {
    let map = DrivableTileMap::new(0, 5);
    assert_eq!(map.drivable(0, 0), None);
}

#[test]
fn water_is_not_drivable() {
    let water = Rgb { r: 45, g: 94, b: 127 };
    let grass = Rgb { r: 45, g: 94, b: 128 };
    let map = DrivableTileMap::from_columns(&vec![vec![water, grass], vec![grass, water]]);
    assert_eq!(map.drivable(0, 0), Some(false));
    assert_eq!(map.drivable(0, 1), Some(true));
    assert_eq!(map.drivable(1, 0), Some(true));
    assert_eq!(map.drivable(1, 1), Some(false));
    assert_eq!(map.drivable(2, 0), None);
}

#[test]
fn map_text_lists_columns() {
    let water = Rgb { r: 45, g: 94, b: 127 };
    let grass = Rgb { r: 0, g: 200, b: 0 };
    let map = DrivableTileMap::from_columns(&vec![vec![water, grass], vec![grass, grass]]);
    assert_eq!(map.to_text(), b"0:011:11\n".to_vec());
    assert_eq!(DrivableTileMap::new(0, 0).to_text(), b"\n".to_vec());
    let wide = DrivableTileMap::new(12, 1).to_text();
    assert!(wide.ends_with(b"10:011:0\n"));
}
