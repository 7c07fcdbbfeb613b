use std::collections::HashSet;

use world_map_gen::LandKind;

#[test]
fn constants() {
    let mut saw = HashSet::new();
    for kind in &[
        LandKind::Sea,
        LandKind::Mountain,
        LandKind::Forest,
        LandKind::Plain,
        LandKind::Town,
        LandKind::Top,
        LandKind::Highland,
        LandKind::DeepSea,
        LandKind::Path,
    ] {
        let land = kind.preset(0);
        assert_eq!(&land.kind, kind);
        let c = kind.color_code();
        assert!(saw.insert(c), "{}", c);
    }
}

#[test]
fn preset_carries_altitude() {
    let land = LandKind::Forest.preset(50);
    assert_eq!(land.kind, LandKind::Forest);
    assert_eq!(land.altitude, 50);
}

#[test]
fn catalog_values() {
    assert_eq!(LandKind::Sea.color_code(), 81);
    assert_eq!(LandKind::Mountain.color_code(), 94);
    assert_eq!(LandKind::Forest.color_code(), 22);
    assert_eq!(LandKind::Plain.color_code(), 118);
    assert_eq!(LandKind::Town.color_code(), 226);
    assert_eq!(LandKind::Top.color_code(), 102);
    assert_eq!(LandKind::Highland.color_code(), 58);
    assert_eq!(LandKind::DeepSea.color_code(), 63);
    assert_eq!(LandKind::Path.color_code(), 193);
    assert_eq!(LandKind::Top.legend(), "Top of Mountain");
    assert_eq!(LandKind::DeepSea.legend(), "Deep Sea");
    assert_eq!(LandKind::Sea.legend(), "Sea");
}
