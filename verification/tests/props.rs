use rand::rngs::StdRng;
use rand::SeedableRng;

use world_map_gen::board::Pos;
use world_map_gen::large_gen::LargeBoardGen;
use world_map_gen::middle_gen::MiddleBoardGen;
use world_map_gen::LandKind;
use world_map_gen::RandomBoardGen;

#[test]
fn low_same_seed_scenario() {
    let b1 = RandomBoardGen::from_seed(1).gen_auto(3, 4);
    let b2 = RandomBoardGen::from_seed(1).gen_auto(3, 4);
    assert_eq!(b1, b2);
    for y in 0..4 {
        for x in 0..3 {
            let l = b1.at(x, y);
            assert!(
                [LandKind::Sea, LandKind::Plain, LandKind::Forest, LandKind::Mountain]
                    .contains(&l.kind)
            );
            assert!(l.altitude < 100);
        }
    }
}

#[test]
fn middle_same_seed() {
    let b1 = RandomBoardGen::from_seed(7).gen_middle(20, 20);
    let b2 = RandomBoardGen::from_seed(7).gen_middle(20, 20);
    assert_eq!(b1, b2);
}

#[test]
fn large_same_seed() {
    let b1 = RandomBoardGen::from_seed(9).gen_large(130, 10);
    let b2 = RandomBoardGen::from_seed(9).gen_large(130, 10);
    assert_eq!(b1, b2);
}

#[test]
fn different_seeds_differ() {
    let b1 = RandomBoardGen::from_seed(1).gen_small(4, 4);
    let b2 = RandomBoardGen::from_seed(2).gen_small(4, 4);
    assert_ne!(b1, b2);
}

#[test]
fn town_separation_exceeds_minimum() {
    let mut rng = StdRng::seed_from_u64(13);
    let g = MiddleBoardGen::new(&mut rng, 40, 40);
    let min_distance = g.min_distance;
    let b = g.gen(&mut rng);
    let mut towns = Vec::new();
    for y in 0..40 {
        for x in 0..40 {
            if b.at(x, y).kind == LandKind::Town {
                towns.push(Pos { x, y });
            }
        }
    }
    for i in 0..towns.len() {
        for j in 0..towns.len() {
            if i != j {
                assert!(towns[i].move_cost(&towns[j]) > min_distance);
            }
        }
    }
}

#[test]
fn unreachable_pair_yields_empty_path() {
    let mut rng = StdRng::seed_from_u64(17);
    let g = LargeBoardGen::new(&mut rng, 3, 3);
    let altitudes = vec![vec![0u8; 3]; 3];
    let path = g.shortest_path(Pos { x: 10, y: 0 }, Pos { x: 0, y: 0 }, &altitudes);
    assert!(path.is_empty());
}

#[test]
fn reachable_pair_yields_a_route() {
    let mut rng = StdRng::seed_from_u64(17);
    let g = LargeBoardGen::new(&mut rng, 5, 5);
    let altitudes = vec![vec![60u8; 5]; 5];
    let from = Pos { x: 0, y: 0 };
    let to = Pos { x: 4, y: 4 };
    let path = g.shortest_path(from, to, &altitudes);
    assert!(!path.is_empty());
    for p in &path {
        assert!(p.x < 5 && p.y < 5);
        assert!(*p != from && *p != to);
    }
    // The route is a 4-connected chain from a neighbor of `to` to a
    // neighbor of `from`.
    assert_eq!(path[0].move_cost(&to), 1);
    assert_eq!(path[path.len() - 1].move_cost(&from), 1);
    for w in path.windows(2) {
        assert_eq!(w[0].move_cost(&w[1]), 1);
    }
}

#[test]
fn adjacent_towns_need_no_intermediate_cells() {
    let mut rng = StdRng::seed_from_u64(23);
    let g = LargeBoardGen::new(&mut rng, 4, 4);
    let altitudes = vec![vec![60u8; 4]; 4];
    let path = g.shortest_path(Pos { x: 1, y: 1 }, Pos { x: 1, y: 2 }, &altitudes);
    assert!(path.is_empty());
}
