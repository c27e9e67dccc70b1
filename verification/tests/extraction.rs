use image::Rgb;
use image::RgbImage;

use picross_rs::game::Game;
use picross_rs::picross_image::Clue;
use picross_rs::picross_image::Color;
use picross_rs::picross_image::Image;

const BLACK: Color = Color { r: 0x0, g: 0x0, b: 0x0 };

/// The 4x4 test picture: a "C" of black pixels on white.
///   ####
///   #...
///   #...
///   ####
fn c_image() -> image::DynamicImage {
    let img = RgbImage::from_fn(4, 4, |x, y| {
        if y == 0 || y == 3 || x == 0 {
            Rgb([0x0, 0x0, 0x0])
        } else {
            Rgb([0xFF, 0xFF, 0xFF])
        }
    });
    image::DynamicImage::ImageRgb8(img)
}

#[test]
fn game_it_creates_game_from_image() {
    let game_res = Image::from_image(c_image());
    assert!(&game_res.is_ok());
    let game = game_res.unwrap();

    assert_eq!(game.width, 4);
    assert_eq!(game.height, 4);
    assert_eq!(game.rows.len(), 4);
    assert_eq!(game.cols.len(), 4);

    let expected = vec![
        vec![Clue::new(BLACK, 4)],
        vec![Clue::new(BLACK, 1)],
        vec![Clue::new(BLACK, 1)],
        vec![Clue::new(BLACK, 4)],
    ];
    assert_eq!(&game.rows, &expected);

    let expected = vec![
        vec![Clue::new(BLACK, 4)],
        vec![Clue::new(BLACK, 1), Clue::new(BLACK, 1)],
        vec![Clue::new(BLACK, 1), Clue::new(BLACK, 1)],
        vec![Clue::new(BLACK, 1), Clue::new(BLACK, 1)],
    ];
    assert_eq!(&game.cols, &expected);
}

#[test]
fn picross_image_it_creates_game_from_image() {
    let game_res = Image::from_image(c_image());
    assert!(&game_res.is_ok());
    let game = game_res.unwrap();

    assert_eq!(game.width, 4);
    assert_eq!(game.height, 4);
    assert_eq!(game.rows.len(), 4);
    assert_eq!(game.cols.len(), 4);

    let expected = vec![
        vec![Clue::new(BLACK, 4)],
        vec![Clue::new(BLACK, 1)],
        vec![Clue::new(BLACK, 1)],
        vec![Clue::new(BLACK, 4)],
    ];
    assert_eq!(&game.rows, &expected);

    let expected = vec![
        vec![Clue::new(BLACK, 4)],
        vec![Clue::new(BLACK, 1), Clue::new(BLACK, 1)],
        vec![Clue::new(BLACK, 1), Clue::new(BLACK, 1)],
        vec![Clue::new(BLACK, 1), Clue::new(BLACK, 1)],
    ];
    assert_eq!(&game.cols, &expected);
}

#[test]
fn blank_board_matches_blank_image_only() {
    let game_res = Image::from_image(c_image());
    let image = game_res.unwrap();
    let game = Game::new(image);
    assert!(!game.is_finished());
}

#[test]
fn extracts_nothing_from_all_white_line() {
    let img = RgbImage::from_fn(5, 1, |_, _| Rgb([0xFF, 0xFF, 0xFF]));
    let image = Image::from_image(image::DynamicImage::ImageRgb8(img)).unwrap();
    assert_eq!(image.rows, vec![vec![]]);
    assert_eq!(image.cols, vec![vec![]; 5]);
}

#[test]
fn extracts_adjacent_runs_of_different_colors_separately() {
    // one row: red red blue blue white green
    let colors = [
        [0xFF, 0x0, 0x0],
        [0xFF, 0x0, 0x0],
        [0x0, 0x0, 0xFF],
        [0x0, 0x0, 0xFF],
        [0xFF, 0xFF, 0xFF],
        [0x0, 0xFF, 0x0],
    ];
    let img = RgbImage::from_fn(6, 1, |x, _| Rgb(colors[x as usize]));
    let image = Image::from_image(image::DynamicImage::ImageRgb8(img)).unwrap();
    let expected = vec![vec![
        Clue::new(Color { r: 0xFF, g: 0x0, b: 0x0 }, 2),
        Clue::new(Color { r: 0x0, g: 0x0, b: 0xFF }, 2),
        Clue::new(Color { r: 0x0, g: 0xFF, b: 0x0 }, 1),
    ]];
    assert_eq!(&image.rows, &expected);
}

#[test]
fn extracts_empty_image() {
    let img = RgbImage::new(0, 0);
    let image = Image::from_image(image::DynamicImage::ImageRgb8(img)).unwrap();
    assert_eq!(image.width, 0);
    assert_eq!(image.height, 0);
    assert!(image.rows.is_empty());
    assert!(image.cols.is_empty());
}
