use image::Rgb;
use image::RgbImage;

use picross_rs::board::Board;
use picross_rs::board::Pixel;
use picross_rs::picross_image::Bitmap;
use picross_rs::picross_image::Color;
use picross_rs::picross_image::Image;

const WHITE: Color = Color { r: 0xFF, g: 0xFF, b: 0xFF };

/// Extraction round trip: fill a board to exactly match a bitmap, Marked
/// where the bitmap is background; reading the board back as a bitmap and
/// extracting again yields the identical clue lists.
#[test]
fn board_filled_to_match_extracts_same_clues() {
    let red = [0xFF, 0x0, 0x0];
    let blue = [0x0, 0x0, 0xFF];
    let white = [0xFF, 0xFF, 0xFF];
    let pixels = [
        [red, red, white, red],
        [white, blue, blue, white],
        [red, white, red, white],
    ];
    let img = RgbImage::from_fn(4, 3, |x, y| Rgb(pixels[y as usize][x as usize]));
    let image = Image::from_image(image::DynamicImage::ImageRgb8(img)).unwrap();

    // fill a board to match: Filled where colored, Marked where background
    let mut board = Board::new(4, 3);
    for y in 0..3u32 {
        for x in 0..4u32 {
            let [r, g, b] = pixels[y as usize][x as usize];
            let cell = if [r, g, b] == white {
                Pixel::Cross
            } else {
                Pixel::Color(Color { r, g, b })
            };
            board.set_pixel(x as usize, y as usize, &cell);
        }
    }
    assert!(image.is_finished(&board));

    // read the board back as a bitmap of effective colors and re-extract
    let mut effective: Vec<Color> = Vec::new();
    for y in 0..3 {
        for x in 0..4 {
            effective.push(match *board.get_pixel(x, y) {
                Pixel::Color(c) => c,
                Pixel::Cross => WHITE,
            });
        }
    }
    let reread = Image::from_bitmap(Bitmap { width: 4, height: 3, pixels: effective });
    assert_eq!(reread.rows, image.rows);
    assert_eq!(reread.cols, image.cols);
}

/// The same round trip with Unresolved cells standing for the background:
/// Unresolved and Marked both read back as background.
#[test]
fn unresolved_background_reads_back_the_same() {
    let black = [0x0, 0x0, 0x0];
    let white = [0xFF, 0xFF, 0xFF];
    let pixels = [[black, white], [white, black]];
    let img = RgbImage::from_fn(2, 2, |x, y| Rgb(pixels[y as usize][x as usize]));
    let image = Image::from_image(image::DynamicImage::ImageRgb8(img)).unwrap();

    let mut board = Board::new(2, 2);
    // leave the background cells Unresolved
    board.set_pixel(0, 0, &Pixel::Color(Color { r: 0, g: 0, b: 0 }));
    board.set_pixel(1, 1, &Pixel::Color(Color { r: 0, g: 0, b: 0 }));
    assert!(image.is_finished(&board));

    let mut effective: Vec<Color> = Vec::new();
    for y in 0..2 {
        for x in 0..2 {
            effective.push(match *board.get_pixel(x, y) {
                Pixel::Color(c) => c,
                Pixel::Cross => WHITE,
            });
        }
    }
    let reread = Image::from_bitmap(Bitmap { width: 2, height: 2, pixels: effective });
    assert_eq!(reread.rows, image.rows);
    assert_eq!(reread.cols, image.cols);
}
