use rand::rngs::StdRng;
use rand::SeedableRng;

use world_map_gen::board::Pos;
use world_map_gen::slope::SlopeGen;

#[test]
fn generate_slope_invariant() {
    let mut rng = StdRng::from_entropy();
    let mut slope = SlopeGen::new(3, 4, 5, 2);
    slope.gen(&mut rng);

    let alt = slope.altitudes;
    let top = slope.tops;

    assert_eq!(alt.len(), 4); // height
    assert_eq!(alt[0].len(), 3); // width
    assert_eq!(top.len(), 2);

    for y in 0..4 {
        for x in 0..3 {
            if top.contains(&Pos { x, y }) {
                // Skip tops
                continue;
            }
            let a = alt[y][x];
            let ix = x as isize;
            let iy = y as isize;
            let dirs = [(-1, 0), (1, 0), (0, -1), (0, 1)];
            let b = dirs.iter().any(|(dx, dy)| {
                let x = ix + dx;
                let y = iy + dy;
                if x < 0 || 3 <= x || y < 0 || 4 <= y {
                    false
                } else {
                    alt[y as usize][x as usize] >= a
                }
            });
            assert!(
                b,
                "All cells altitudes around the cell are smaller at ({}, {})",
                x, y
            );
        }
    }
}

#[test]
fn tops_keep_the_highest_altitude() {
    let mut rng = StdRng::seed_from_u64(5);
    let mut slope = SlopeGen::new(10, 10, 6, 3);
    slope.gen(&mut rng);
    assert_eq!(slope.tops.len(), 3);
    for t in &slope.tops {
        assert_eq!(slope.altitudes[t.y][t.x], 99);
    }
    for row in &slope.altitudes {
        for v in row {
            assert!(*v <= 99);
        }
    }
}

#[test]
fn requested_tops_clamped_to_cell_count() {
    let mut rng = StdRng::seed_from_u64(5);
    let mut slope = SlopeGen::new(2, 2, 5, 100);
    slope.gen(&mut rng);
    assert_eq!(slope.tops.len(), 4);
}
