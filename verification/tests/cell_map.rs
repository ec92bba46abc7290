use mouse::cell_map::CellMap;
use mouse::vec::Vecu;

#[test]
fn map() {
    let mut map: CellMap<u8> = CellMap::new();

    assert_eq!(None, map._get(&Vecu { x: 0, y: 0 }));
    assert_eq!(None, map.insert(Vecu { x: 0, y: 0 }, 1));
}

#[test]
fn map_keeps_positions_apart() {
    let mut map: CellMap<u16> = CellMap::default();
    assert!(!map.contains_key(&Vecu { x: 1, y: 0 }));
    assert_eq!(None, map.insert(Vecu { x: 1, y: 0 }, 10));
    assert_eq!(None, map.insert(Vecu { x: 0, y: 1 }, 20));
    assert_eq!(None, map.insert(Vecu { x: 255, y: 255 }, 30));
    assert_eq!(None, map.insert(Vecu { x: 0, y: 16 }, 40));
    assert_eq!(None, map.insert(Vecu { x: 16, y: 0 }, 50));
    assert_eq!(Some(10), map.insert(Vecu { x: 1, y: 0 }, 11));
    assert_eq!(Some(&11), map._get(&Vecu { x: 1, y: 0 }));
    assert_eq!(Some(&20), map._get(&Vecu { x: 0, y: 1 }));
    assert_eq!(Some(&30), map._get(&Vecu { x: 255, y: 255 }));
    assert_eq!(Some(&40), map._get(&Vecu { x: 0, y: 16 }));
    assert_eq!(Some(&50), map._get(&Vecu { x: 16, y: 0 }));
    assert!(map.contains_key(&Vecu { x: 0, y: 1 }));
    assert!(!map.contains_key(&Vecu { x: 1, y: 1 }));
    assert_eq!(None, map._get(&Vecu { x: 255, y: 254 }));
}
