use image::Rgb;
use image::RgbImage;

use picross_rs::game::Game;
use picross_rs::picross_image::Image;
use picross_rs::solver::SolverBuilder;

/// Builds a game from a boolean mask of black pixels.
fn game_from_mask(mask: &[&[bool]]) -> Game {
    let h = mask.len() as u32;
    let w = mask[0].len() as u32;
    let img = RgbImage::from_fn(w, h, |x, y| {
        if mask[y as usize][x as usize] {
            Rgb([0x0, 0x0, 0x0])
        } else {
            Rgb([0xFF, 0xFF, 0xFF])
        }
    });
    Game::new(Image::from_image(image::DynamicImage::ImageRgb8(img)).unwrap())
}

/// A puzzle fully solvable by zero-slack lines alone reaches the solved state
/// in at most rows + cols successful steps.
#[test]
fn zero_slack_puzzle_terminates_within_line_count() {
    let t = true;
    let f = false;
    let shuriken: &[&[bool]] = &[
        &[t, t, f, t],
        &[f, f, f, t],
        &[t, f, f, f],
        &[t, f, t, t],
    ];
    let mut game = game_from_mask(shuriken);
    let solver = SolverBuilder::new().build();
    let mut steps = 0;
    while !game.is_finished() {
        match solver.solve(&mut game) {
            Some(p) => {
                p.merge(&mut game.board);
                steps += 1;
            }
            None => panic!("propagation stuck before the board was solved"),
        }
        assert!(steps <= 4 + 4, "more successful steps than rows + cols");
    }
    assert!(game.is_finished());
}

/// A puzzle whose lines all have slack is stuck immediately: solve finds
/// nothing, and that is a terminal state, not an error.
#[test]
fn ambiguous_puzzle_is_stuck() {
    let t = true;
    let f = false;
    // every row and column holds a single run of one pixel: slack everywhere
    let diag: &[&[bool]] = &[
        &[t, f, f],
        &[f, t, f],
        &[f, f, t],
    ];
    let mut game = game_from_mask(diag);
    assert!(!game.is_finished());
    let solver = SolverBuilder::new().build();
    assert!(solver.solve(&mut game).is_none());
}

/// The first proposition found wins: rows are scanned before columns even
/// when a column would also propose.
#[test]
fn rows_are_scanned_before_columns() {
    let t = true;
    // a full 2x2 block: every line is zero slack
    let full: &[&[bool]] = &[&[t, t], &[t, t]];
    let mut game = game_from_mask(full);
    let solver = SolverBuilder::new().build();
    let p = solver.solve(&mut game).unwrap();
    assert_eq!(p.view, picross_rs::solver::GameView::Row);
    assert_eq!(p.index, 0);
}

/// Re-solving after each merge walks the lines in order and finishes.
#[test]
fn full_block_is_solved_by_propagation() {
    let t = true;
    let full: &[&[bool]] = &[&[t, t], &[t, t]];
    let mut game = game_from_mask(full);
    let solver = SolverBuilder::new().build();
    let mut steps = 0;
    while !game.is_finished() {
        let p = solver.solve(&mut game).expect("a full block never gets stuck");
        p.merge(&mut game.board);
        steps += 1;
        assert!(steps <= 4);
    }
    assert!(game.is_finished());
}
