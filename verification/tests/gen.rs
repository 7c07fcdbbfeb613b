use world_map_gen::board::Pos;
use world_map_gen::gen::Resolution;
use world_map_gen::LandKind::{DeepSea, Forest, Highland, Mountain, Path, Plain, Sea, Top, Town};
use world_map_gen::RandomBoardGen;

#[test]
fn same_seed() {
    let mut g = RandomBoardGen::from_seed(1);
    let b1 = g.gen_small(4, 4);
    let mut g = RandomBoardGen::from_seed(1);
    let b2 = g.gen_small(4, 4);
    assert_eq!(b1, b2);
}

#[test]
fn default_gen() {
    let mut g = RandomBoardGen::default();
    let b1 = g.gen_small(4, 4);
    let mut g = RandomBoardGen::default();
    let b2 = g.gen_small(4, 4);
    assert_ne!(b1, b2);
}

#[test]
fn gen_small() {
    let (w, h) = (3, 4);
    let b = RandomBoardGen::default().gen_auto(w, h);
    assert_eq!(b.width(), w);
    assert_eq!(b.height(), h);
    for y in 0..h {
        for x in 0..w {
            let p = Pos { x, y };
            let l = b.at(x, y);
            assert!(
                [Sea, Plain, Forest, Mountain].contains(&l.kind),
                "{:?} at {:?}",
                l,
                p
            );
            assert!(l.altitude < 100);
        }
    }
}

#[test]
fn gen_middle() {
    let (w, h) = (20, 20);
    let b = RandomBoardGen::default().gen_auto(w, h);
    assert_eq!(b.width(), w);
    assert_eq!(b.height(), h);

    let mut found_top = false;
    for y in 0..h {
        for x in 0..w {
            let p = Pos { x, y };
            let l = b.at(x, y);
            assert!(
                [Sea, Plain, Forest, Mountain, Top, Town].contains(&l.kind),
                "{:?} at {:?}",
                l,
                p
            );
            if l.kind == Top {
                found_top = true;
            }
            if l.kind == Town {
                // The same altitude as plains
                assert!(11 <= l.altitude && l.altitude <= 40);
            }
            assert!(l.altitude < 100);
        }
    }

    assert!(found_top);
}

#[test]
fn gen_large() {
    let (w, h) = (150, 200);
    let b = RandomBoardGen::default().gen_auto(w, h);
    assert_eq!(b.width(), w);
    assert_eq!(b.height(), h);

    let mut found_top = false;
    let mut found_town = false;
    let mut found_path = false;

    for y in 0..h {
        for x in 0..w {
            let p = Pos { x, y };
            let l = b.at(x, y);
            assert!(
                [DeepSea, Sea, Plain, Forest, Mountain, Highland, Top, Town, Path]
                    .contains(&l.kind),
                "{:?} at {:?}",
                l,
                p
            );
            if l.kind == Top {
                found_top = true;
            }
            if l.kind == Town {
                found_town = true;
            }
            if l.kind == Path {
                found_path = true;
            }
            assert!(l.altitude < 100);
        }
    }

    assert!(found_top);
    assert!(found_town);
    assert!(found_path);
}

#[test]
fn term_size_missing_is_an_error() {
    let mut g = RandomBoardGen::from_seed(3);
    let r = g.gen(&None, None, None, None);
    assert_eq!(r.unwrap_err(), world_map_gen::error::Error::CannotDetermineTermsize);
    let mut g = RandomBoardGen::from_seed(3);
    let r = g.gen(&None, Some(10), None, None);
    assert_eq!(r.unwrap_err(), world_map_gen::error::Error::CannotDetermineTermsize);
}

#[test]
fn too_small_board_is_an_error() {
    let mut g = RandomBoardGen::from_seed(3);
    let r = g.gen(&Some(Resolution::Middle), Some(0), Some(5), None);
    assert_eq!(r.unwrap_err(), world_map_gen::error::Error::BoardTooSmall);
    let mut g = RandomBoardGen::from_seed(3);
    let r = g.gen(&Some(Resolution::High), Some(0), Some(200), None);
    assert_eq!(r.unwrap_err(), world_map_gen::error::Error::BoardTooSmall);
}

#[test]
fn term_size_fallback_halves_width() {
    let mut g = RandomBoardGen::from_seed(3);
    let b = g.gen(&None, None, None, Some((10, 8))).unwrap();
    assert_eq!(b.width(), 5);
    assert_eq!(b.height(), 5);
    let mut g = RandomBoardGen::from_seed(3);
    let b = g.gen(&None, None, Some(3), Some((10, 8))).unwrap();
    assert_eq!(b.width(), 5);
    assert_eq!(b.height(), 3);
}

#[test]
fn explicit_resolution_is_used() {
    let mut g = RandomBoardGen::from_seed(11);
    let b = g.gen(&Some(Resolution::Low), Some(30), Some(30), None).unwrap();
    for cell in b.cells() {
        assert!([Sea, Plain, Forest, Mountain].contains(&cell.kind));
    }
}
