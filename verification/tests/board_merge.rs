use picross_rs::board::Board;
use picross_rs::board::Pixel;
use picross_rs::picross_image::Color;
use picross_rs::solver::GameView;
use picross_rs::solver::Proposition;

const WHITE: Color = Color { r: 0xFF, g: 0xFF, b: 0xFF };
const BLACK: Pixel = Pixel::Color(Color { r: 0, g: 0, b: 0 });

#[test]
fn new_board_is_blank() {
    let board = Board::new(3, 2);
    assert_eq!(board.width(), 3);
    assert_eq!(board.height(), 2);
    for y in 0..2 {
        for x in 0..3 {
            assert_eq!(*board.get_pixel(x, y), Pixel::Color(WHITE));
        }
    }
}

#[test]
fn set_pixel_writes_one_cell() {
    let mut board = Board::new(3, 3);
    board.set_pixel(1, 2, &BLACK);
    assert_eq!(*board.get_pixel(1, 2), BLACK);
    assert_eq!(*board.get_pixel(2, 1), Pixel::Color(WHITE));
    board.set_pixel(1, 2, &Pixel::Cross);
    assert_eq!(*board.get_pixel(1, 2), Pixel::Cross);
}

#[test]
fn set_pixel_out_of_bounds_is_ignored() {
    let mut board = Board::new(2, 2);
    board.set_pixel(2, 0, &BLACK);
    board.set_pixel(0, 2, &BLACK);
    board.set_pixel(7, 9, &BLACK);
    for y in 0..2 {
        for x in 0..2 {
            assert_eq!(*board.get_pixel(x, y), Pixel::Color(WHITE));
        }
    }
}

#[test]
fn merge_writes_row_assignments() {
    let mut board = Board::new(3, 3);
    let p = Proposition {
        view: GameView::Row,
        line: vec![Some(BLACK), None, Some(Pixel::Cross)],
        index: 1,
    };
    p.merge(&mut board);
    assert_eq!(*board.get_pixel(0, 1), BLACK);
    assert_eq!(*board.get_pixel(1, 1), Pixel::Color(WHITE));
    assert_eq!(*board.get_pixel(2, 1), Pixel::Cross);
    // the other rows stay blank
    for x in 0..3 {
        assert_eq!(*board.get_pixel(x, 0), Pixel::Color(WHITE));
        assert_eq!(*board.get_pixel(x, 2), Pixel::Color(WHITE));
    }
}

#[test]
fn merge_writes_column_assignments() {
    let mut board = Board::new(3, 3);
    let p = Proposition {
        view: GameView::Column,
        line: vec![None, Some(BLACK), Some(BLACK)],
        index: 0,
    };
    p.merge(&mut board);
    assert_eq!(*board.get_pixel(0, 0), Pixel::Color(WHITE));
    assert_eq!(*board.get_pixel(0, 1), BLACK);
    assert_eq!(*board.get_pixel(0, 2), BLACK);
    assert_eq!(*board.get_pixel(1, 1), Pixel::Color(WHITE));
}

#[test]
fn count_pixel_counts_assignments_only() {
    let p = Proposition {
        view: GameView::Row,
        line: vec![Some(BLACK), None, Some(Pixel::Cross), None],
        index: 0,
    };
    assert_eq!(p.count_pixel(), 2);
    let empty = Proposition {
        view: GameView::Column,
        line: vec![],
        index: 0,
    };
    assert_eq!(empty.count_pixel(), 0);
}
