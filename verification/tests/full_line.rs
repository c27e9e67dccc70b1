use image::Rgb;
use image::RgbImage;

use picross_rs::board::Pixel;
use picross_rs::game::Game;
use picross_rs::picross_image::Clue;
use picross_rs::picross_image::Color;
use picross_rs::picross_image::Image;
use picross_rs::solver::FullLine;
use picross_rs::solver::GameLine;
use picross_rs::solver::GameView;
use picross_rs::solver::Proposition;
use picross_rs::solver::Solver;
use picross_rs::solver::SolverAlgo;

const BLACK: Pixel = Pixel::Color(Color { r: 0, g: 0, b: 0 });
const WHITE: Color = Color { r: 0xFF, g: 0xFF, b: 0xFF };

/// The 4x4 test picture: a shuriken of black pixels on white.
///   ##.#
///   ...#
///   #...
///   #.##
fn shuriken_image() -> image::DynamicImage {
    let black = [
        [true, true, false, true],
        [false, false, false, true],
        [true, false, false, false],
        [true, false, true, true],
    ];
    let img = RgbImage::from_fn(4, 4, |x, y| {
        if black[y as usize][x as usize] {
            Rgb([0x0, 0x0, 0x0])
        } else {
            Rgb([0xFF, 0xFF, 0xFF])
        }
    });
    image::DynamicImage::ImageRgb8(img)
}

fn proposition_as_str(proposition: &Proposition) -> String {
    let mut str = String::new();
    for p in &proposition.line {
        match p {
            Some(Pixel::Cross) => {
                str.push('X');
            }
            Some(Pixel::Color(color)) => {
                if color.eq(&WHITE) {
                    str.push(' ');
                } else {
                    str.push('█');
                }
            }
            None => {
                str.push(' ');
            }
        }
    }
    str
}

#[test]
fn it_solves_full_lines() {
    let game_res = Image::from_image(shuriken_image());
    assert!(&game_res.is_ok());
    let mut game = Game::new(game_res.unwrap());
    let solver = Solver {
        algos: vec![SolverAlgo::FullLine(FullLine)],
    };

    // Should return the 1st row
    let proposition = solver.solve(&mut game);
    assert!(proposition.is_some());
    let proposition = proposition.unwrap();
    assert_eq!(proposition.view, GameView::Row);
    assert_eq!(proposition.index, 0);
    assert_eq!(proposition_as_str(&proposition), "██X█");

    // partialy fill the 1st row
    game.board.set_pixel(0, 0, &BLACK);
    game.board.set_pixel(1, 0, &BLACK);

    // Should return the 1st row
    let proposition = solver.solve(&mut game);
    assert!(proposition.is_some());
    let proposition = proposition.unwrap();
    assert_eq!(proposition.view, GameView::Row);
    assert_eq!(proposition.index, 0);
    assert_eq!(proposition_as_str(&proposition), "██X█");

    // finish filling the 1st row
    game.board.set_pixel(3, 0, &BLACK);

    // Should return the 2nd row
    let proposition = solver.solve(&mut game);
    assert!(proposition.is_some());
    let proposition = proposition.unwrap();
    assert_eq!(proposition.view, GameView::Row);
    assert_eq!(proposition.index, 3);
    assert_eq!(proposition_as_str(&proposition), "█X██");

    // Fill the last row
    game.board.set_pixel(0, 3, &BLACK);
    game.board.set_pixel(2, 3, &BLACK);
    game.board.set_pixel(3, 3, &BLACK);

    // Should return the 1st col
    let proposition = solver.solve(&mut game);
    assert!(proposition.is_some());
    let proposition = proposition.unwrap();
    assert_eq!(proposition.view, GameView::Column);
    assert_eq!(proposition.index, 0);
    assert_eq!(proposition_as_str(&proposition), "█X██");

    // Fill de first col
    game.board.set_pixel(0, 2, &BLACK);

    // Should return the last col
    let proposition = solver.solve(&mut game);
    assert!(proposition.is_some());
    let proposition = proposition.unwrap();
    assert_eq!(proposition.view, GameView::Column);
    assert_eq!(proposition.index, 3);
    assert_eq!(proposition_as_str(&proposition), "██X█");

    // Fill de last col
    game.board.set_pixel(3, 1, &BLACK);

    // No more proposition
    assert!(solver.solve(&mut game).is_none());
}

/// A zero-slack row of width 4 whose clues are two adjacent same-color runs
/// of counts 2 and 1: the first step forces the literal pattern fill, fill,
/// marked separator, fill.
#[test]
fn zero_slack_row_forces_pattern_once() {
    let black = Color { r: 0, g: 0, b: 0 };
    let clues = vec![Clue::new(black, 2), Clue::new(black, 1)];
    let blank = vec![Pixel::Color(WHITE); 4];
    let line = GameLine {
        view: GameView::Row,
        board_line: blank,
        clues: &clues,
        index: 0,
    };
    let proposition = FullLine.get_proposition(&line).unwrap();
    assert_eq!(proposition.view, GameView::Row);
    assert_eq!(proposition.index, 0);
    assert_eq!(proposition_as_str(&proposition), "██X█");

    // with the placement fully on the board, the same row yields nothing more
    let solved_line = GameLine {
        view: GameView::Row,
        board_line: vec![BLACK, BLACK, Pixel::Cross, BLACK],
        clues: &clues,
        index: 0,
    };
    assert!(FullLine.get_proposition(&solved_line).is_none());
}

/// With slack left, the rule proposes nothing, whatever the board holds.
#[test]
fn slack_line_never_proposes() {
    let black = Color { r: 0, g: 0, b: 0 };
    let clues = vec![Clue::new(black, 2), Clue::new(black, 1)];
    // 2 + 1 + 1 = 4 < 5: one cell of slack
    let boards = [
        vec![Pixel::Color(WHITE); 5],
        vec![BLACK, BLACK, Pixel::Cross, BLACK, Pixel::Cross],
        vec![BLACK; 5],
    ];
    for board_line in boards {
        let line = GameLine {
            view: GameView::Row,
            board_line,
            clues: &clues,
            index: 0,
        };
        assert!(FullLine.get_proposition(&line).is_none());
    }
}

/// A zero-slack line already shown in full on the board is not re-proposed,
/// while a single missing colored cell still is.
#[test]
fn reflected_line_is_suppressed() {
    let red = Color { r: 0xFF, g: 0, b: 0 };
    let blue = Color { r: 0, g: 0, b: 0xFF };
    // red red blue: zero slack on width 3, no separator between colors
    let clues = vec![Clue::new(red, 2), Clue::new(blue, 1)];
    let full = vec![
        Pixel::Color(red),
        Pixel::Color(red),
        Pixel::Color(blue),
    ];
    let line = GameLine {
        view: GameView::Column,
        board_line: full,
        clues: &clues,
        index: 2,
    };
    assert!(FullLine.get_proposition(&line).is_none());

    let partial = vec![
        Pixel::Color(red),
        Pixel::Color(WHITE),
        Pixel::Color(blue),
    ];
    let line = GameLine {
        view: GameView::Column,
        board_line: partial,
        clues: &clues,
        index: 2,
    };
    let proposition = FullLine.get_proposition(&line).unwrap();
    assert_eq!(proposition.view, GameView::Column);
    assert_eq!(proposition.index, 2);
    assert_eq!(
        proposition.line,
        vec![
            Some(Pixel::Color(red)),
            Some(Pixel::Color(red)),
            Some(Pixel::Color(blue)),
        ]
    );
}
