use world_map_gen::board::Pos;
use world_map_gen::Board;
use world_map_gen::LandKind;

#[test]
fn build_board() {
    let mut cells = Vec::new();
    for y in 0..3usize {
        for x in 0..2usize {
            cells.push(LandKind::Town.preset((x + 2 * y) as u8));
        }
    }
    let board = Board::build(2, 3, cells);
    assert_eq!(board.width(), 2);
    assert_eq!(board.height(), 3);
    for y in 0..board.height() {
        for x in 0..board.width() {
            let land = board.at(x, y);
            assert_eq!(land.kind, LandKind::Town);
            assert_eq!(land.altitude, (x + 2 * y) as u8);
            let land2 = &board.cells()[y * 2 + x];
            assert_eq!(land, land2);
        }
    }
}

#[test]
fn iter_board() {
    let mut cells = Vec::new();
    let mut idx: u8 = 0;
    for _y in 0..3usize {
        for _x in 0..2usize {
            idx += 1;
            cells.push(LandKind::Town.preset(idx));
        }
    }
    let board = Board::build(2, 3, cells);
    for (idx, land) in board.cells().iter().enumerate() {
        assert_eq!(land.kind, LandKind::Town);
        assert_eq!(land.altitude, (idx as u8) + 1);
    }
}

#[test]
fn iter_empty_board() {
    let board = Board::build(0, 0, Vec::new());
    for _ in board.cells().iter() {
        assert!(false);
    }
}

#[test]
fn iter_rows() {
    let mut cells = Vec::new();
    for y in 0..3usize {
        for x in 0..2usize {
            cells.push(LandKind::Town.preset((x + 2 * y) as u8));
        }
    }
    let board = Board::build(2, 3, cells);
    for row in board.cells().chunks(board.width()) {
        assert_eq!(row.len(), 2);
    }
    assert_eq!(board.cells().chunks(board.width()).count(), 3);

    let mut cells = Vec::new();
    for y in 0..3usize {
        for x in 0..2usize {
            cells.push(LandKind::Town.preset((x + 2 * y) as u8));
        }
    }
    let board = Board::build(2, 3, cells);
    for row in board.cells().chunks(board.width()) {
        assert_eq!(row.len(), 2);
    }
    assert_eq!(board.cells().chunks(board.width()).count(), 3);
}

#[test]
fn move_cost_is_manhattan() {
    let a = Pos { x: 1, y: 2 };
    let b = Pos { x: 4, y: 1 };
    assert_eq!(a.move_cost(&b), 4);
    assert_eq!(b.move_cost(&a), 4);
    assert_eq!(a.move_cost(&a), 0);
    let o = Pos { x: 0, y: 0 };
    let c = Pos { x: 3, y: 7 };
    assert_eq!(o.move_cost(&c), 10);
}
