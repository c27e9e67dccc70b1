use vstd::prelude::*;

use crate::board::Board;
use crate::board::Pixel;
use crate::board::lemma_cell_index_bounds;

verus! {

#[verifier::external_type_specification]
#[verifier::external_body]
pub struct ExDynamicImage(image::DynamicImage);

#[verifier::external_type_specification]
#[verifier::external_body]
pub struct ExImageCrateError(image::ImageError);

#[verifier::external_type_specification]
#[verifier::external_body]
pub struct ExIoError(std::io::Error);

/// An RGB color as three 8-bit channels.
#[derive(Clone, Copy, PartialEq, Eq, Structural, Debug)]
pub struct Color {
    pub r: u8,
    pub g: u8,
    pub b: u8,
}

/// The reserved background color: white.
pub open spec fn white() -> Color {
    Color { r: 0xFF, g: 0xFF, b: 0xFF }
}

/// Builds the background color value.
pub fn white_color() -> (r: Color)
    ensures
        r == white(),
{
    Color { r: 0xFF, g: 0xFF, b: 0xFF }
}

/// Whether a pixel is the background color.
pub fn is_white(p: &Color) -> (r: bool)
    ensures
        r == (*p == white()),
{
    p.r == 0xFF && p.g == 0xFF && p.b == 0xFF
}

/// One maximal run of same-colored, non-background pixels along a line.
#[derive(Clone, Copy, PartialEq, Eq, Structural, Debug)]
pub struct Clue {
    pub color: Color,
    pub count: u32,
}

impl Clue {
    pub fn new(color: Color, count: u32) -> (r: Clue)
        ensures
            r == (Clue { color, count }),
    {
        Clue { color, count }
    }
}

/// Length of the maximal prefix of `s` whose pixels all equal `c`.
pub open spec fn run_len(s: Seq<Color>, c: Color) -> nat
    decreases s.len(),
{
    if s.len() > 0 && s[0] == c {
        1 + run_len(s.skip(1), c)
    } else {
        0
    }
}

pub proof fn lemma_run_len_bounds(s: Seq<Color>, c: Color)
    ensures
        run_len(s, c) <= s.len(),
        s.len() > 0 && s[0] == c ==> run_len(s, c) >= 1,
    decreases s.len(),
{
    if s.len() > 0 && s[0] == c {
        lemma_run_len_bounds(s.skip(1), c);
    }
}

/// The maximal prefix is exactly as long as the pixels keep the color.
pub proof fn lemma_run_len_is_max_prefix(s: Seq<Color>, c: Color)
    ensures
        run_len(s, c) <= s.len(),
        forall|k: int| 0 <= k < run_len(s, c) ==> s[k] == c,
        run_len(s, c) < s.len() ==> s[run_len(s, c) as int] != c,
    decreases s.len(),
{
    lemma_run_len_bounds(s, c);
    if s.len() > 0 && s[0] == c {
        lemma_run_len_is_max_prefix(s.skip(1), c);
        assert forall|k: int| 0 <= k < run_len(s, c) implies s[k] == c by {
            if k > 0 {
                assert(s.skip(1)[k - 1] == c);
            }
        }
        if run_len(s, c) < s.len() {
            assert(s[run_len(s, c) as int] == s.skip(1)[run_len(s.skip(1), c) as int]);
        }
    }
}

/// The clue list of one line of pixels: each maximal run of same-colored,
/// non-background pixels becomes one clue, in left-to-right order.
pub open spec fn line_clues(s: Seq<Color>) -> Seq<Clue>
    decreases s.len(),
{
    if s.len() == 0 {
        Seq::empty()
    } else if s[0] == white() {
        line_clues(s.skip(1))
    } else {
        proof {
            lemma_run_len_bounds(s, s[0]);
        }
        seq![Clue { color: s[0], count: run_len(s, s[0]) as u32 }] + line_clues(
            s.skip(run_len(s, s[0]) as int),
        )
    }
}

/// A decoded RGB bitmap, stored row-major: pixel (x, y) sits at `x + y * width`.
#[derive(Debug)]
pub struct Bitmap {
    pub width: u32,
    pub height: u32,
    pub pixels: Vec<Color>,
}

impl Bitmap {
    /// The backing vector holds exactly one pixel per coordinate.
    pub open spec fn wf(&self) -> bool {
        self.pixels@.len() == self.width * self.height
    }

    /// The pixel at coordinate (x, y).
    pub open spec fn at(&self, x: int, y: int) -> Color {
        self.pixels@[x + y * self.width]
    }

    /// Row y as a sequence of pixels, left to right.
    pub open spec fn row_seq(&self, y: int) -> Seq<Color> {
        Seq::new(self.width as nat, |x: int| self.at(x, y))
    }

    /// Column x as a sequence of pixels, top to bottom.
    pub open spec fn col_seq(&self, x: int) -> Seq<Color> {
        Seq::new(self.height as nat, |y: int| self.at(x, y))
    }

    pub fn get(&self, x: u32, y: u32) -> (r: Color)
        requires
            self.wf(),
            x < self.width,
            y < self.height,
        ensures
            r == self.at(x as int, y as int),
    {
        let n = self.pixels.len();
        proof {
            lemma_cell_index_bounds(x as int, y as int, self.width as int, self.height as int);
            assert((x as usize) + (y as usize) * (self.width as usize) < n);
        }
        self.pixels[x as usize + y as usize * self.width as usize]
    }

    /// Copies row y out of the bitmap.
    pub fn row(&self, y: u32) -> (r: Vec<Color>)
        requires
            self.wf(),
            y < self.height,
        ensures
            r@ == self.row_seq(y as int),
    {
        let mut r: Vec<Color> = Vec::new();
        let mut x: u32 = 0;
        while x < self.width
            invariant
                x <= self.width,
                self.wf(),
                y < self.height,
                r@.len() == x,
                forall|k: int| 0 <= k < x ==> r@[k] == self.at(k, y as int),
            decreases self.width - x,
        {
            r.push(self.get(x, y));
            x = x + 1;
        }
        proof {
            assert(r@ =~= self.row_seq(y as int));
        }
        r
    }

    /// Copies column x out of the bitmap.
    pub fn col(&self, x: u32) -> (r: Vec<Color>)
        requires
            self.wf(),
            x < self.width,
        ensures
            r@ == self.col_seq(x as int),
    {
        let mut r: Vec<Color> = Vec::new();
        let mut y: u32 = 0;
        while y < self.height
            invariant
                y <= self.height,
                self.wf(),
                x < self.width,
                r@.len() == y,
                forall|k: int| 0 <= k < y ==> r@[k] == self.at(x as int, k),
            decreases self.height - y,
        {
            r.push(self.get(x, y));
            y = y + 1;
        }
        proof {
            assert(r@ =~= self.col_seq(x as int));
        }
        r
    }
}

/// Scans one line of pixels and returns its clue list.
pub fn extract_line_clues(line: &Vec<Color>) -> (r: Vec<Clue>)
    requires
        line@.len() <= u32::MAX,
    ensures
        r@ == line_clues(line@),
{
    let len = line.len();
    let mut out: Vec<Clue> = Vec::new();
    let mut i: usize = 0;
    proof {
        assert(line@.skip(0) =~= line@);
        assert(out@ + line_clues(line@) =~= line_clues(line@));
    }
    while i < len
        invariant
            i <= len,
            len == line@.len(),
            line@.len() <= u32::MAX,
            line_clues(line@) == out@ + line_clues(line@.skip(i as int)),
        decreases len - i,
    {
        if is_white(&line[i]) {
            proof {
                let s = line@.skip(i as int);
                assert(s[0] == white());
                assert(line_clues(s) == line_clues(s.skip(1)));
                assert(s.skip(1) =~= line@.skip(i + 1));
            }
            i = i + 1;
        } else {
            let c = line[i];
            let mut j = i + 1;
            while j < len && line[j] == c
                invariant
                    i < j <= len,
                    len == line@.len(),
                    line@[i as int] == c,
                    forall|k: int| i <= k < j ==> line@[k] == c,
                decreases len - j,
            {
                j = j + 1;
            }
            let clue = Clue { color: c, count: (j - i) as u32 };
            proof {
                let s = line@.skip(i as int);
                lemma_run_len_is_max_prefix(s, c);
                let n = run_len(s, c) as int;
                assert(forall|k: int| 0 <= k < j - i ==> s[k] == c);
                if n < j - i {
                    assert(s[n] == c);
                    assert(false);
                }
                if n > j - i {
                    assert(s[j - i] == c);
                    assert(line@[j as int] == c);
                    assert(false);
                }
                assert(n == j - i);
                assert(s[0] == c && c != white());
                assert(line_clues(s) == seq![clue] + line_clues(s.skip(n)));
                assert(s.skip(n) =~= line@.skip(j as int));
                assert(out@ + line_clues(s) =~= (out@ + seq![clue]) + line_clues(
                    line@.skip(j as int),
                ));
            }
            out.push(clue);
            i = j;
        }
    }
    proof {
        assert(line@.skip(len as int) =~= Seq::<Color>::empty());
        assert(out@ + line_clues(line@.skip(len as int)) =~= out@);
    }
    out
}

/// Why puzzle construction failed: the file could not be read, the image data
/// could not be decoded, or the decoded image is not plain 8-bit RGB.
#[derive(Debug)]
pub enum GameError {
    IoError(std::io::Error),
    ImageError(image::ImageError),
    UnsupportedFormatError(image::DynamicImage),
}

impl From<std::io::Error> for GameError {
    fn from(err: std::io::Error) -> (r: GameError)
        ensures
            r == GameError::IoError(err),
    {
        GameError::IoError(err)
    }
}

impl vstd::std_specs::convert::FromSpecImpl<std::io::Error> for GameError {
    open spec fn obeys_from_spec() -> bool {
        true
    }

    open spec fn from_spec(err: std::io::Error) -> GameError {
        GameError::IoError(err)
    }
}

impl From<image::ImageError> for GameError {
    fn from(err: image::ImageError) -> (r: GameError)
        ensures
            r == GameError::ImageError(err),
    {
        GameError::ImageError(err)
    }
}

impl vstd::std_specs::convert::FromSpecImpl<image::ImageError> for GameError {
    open spec fn obeys_from_spec() -> bool {
        true
    }

    open spec fn from_spec(err: image::ImageError) -> GameError {
        GameError::ImageError(err)
    }
}

/// A puzzle: the source bitmap with the clue lists of every row and column.
/// Immutable once extracted.
#[derive(Debug)]
pub struct Image {
    pub width: u32,
    pub height: u32,
    pub rows: Vec<Vec<Clue>>,
    pub cols: Vec<Vec<Clue>>,
    pub img: Bitmap,
}

/// Relies on image::DynamicImage::as_rgb8, which returns the pixel buffer
/// exactly when the image is stored as 8-bit RGB, and on
/// image::ImageBuffer::pixels, which yields the buffer's width * height
/// pixels in row-major order.
#[verifier::external_body]
fn to_rgb_bitmap(img: &image::DynamicImage) -> (r: Option<Bitmap>)
    ensures
        r matches Some(b) ==> b.wf(),
{
    match img.as_rgb8() {
        None => None,
        Some(buf) => Some(
            Bitmap {
                width: buf.width(),
                height: buf.height(),
                pixels: buf.pixels().map(|p| Color { r: p[0], g: p[1], b: p[2] }).collect(),
            },
        ),
    }
}

impl Image {
    /// The clue lists are exactly the extraction of the held bitmap:
    /// one list per row and per column, each the line's maximal runs.
    pub open spec fn wf(&self) -> bool {
        &&& self.img.wf()
        &&& self.width == self.img.width
        &&& self.height == self.img.height
        &&& self.rows@.len() == self.height
        &&& self.cols@.len() == self.width
        &&& forall|y: int|
            0 <= y < self.height ==> (#[trigger] self.rows@[y])@ == line_clues(self.img.row_seq(y))
        &&& forall|x: int|
            0 <= x < self.width ==> (#[trigger] self.cols@[x])@ == line_clues(self.img.col_seq(x))
    }

    /// Extracts the puzzle of a bitmap: scans every row, then every column,
    /// and records each line's clue list.
    pub fn from_bitmap(bitmap: Bitmap) -> (r: Image)
        requires
            bitmap.wf(),
        ensures
            r.wf(),
            r.img == bitmap,
            r.width == bitmap.width,
            r.height == bitmap.height,
    {
        let mut rows: Vec<Vec<Clue>> = Vec::new();
        let mut y: u32 = 0;
        while y < bitmap.height
            invariant
                y <= bitmap.height,
                bitmap.wf(),
                rows@.len() == y,
                forall|k: int|
                    0 <= k < y ==> (#[trigger] rows@[k])@ == line_clues(bitmap.row_seq(k)),
            decreases bitmap.height - y,
        {
            let line = bitmap.row(y);
            rows.push(extract_line_clues(&line));
            y = y + 1;
        }
        let mut cols: Vec<Vec<Clue>> = Vec::new();
        let mut x: u32 = 0;
        while x < bitmap.width
            invariant
                x <= bitmap.width,
                bitmap.wf(),
                cols@.len() == x,
                forall|k: int|
                    0 <= k < x ==> (#[trigger] cols@[k])@ == line_clues(bitmap.col_seq(k)),
            decreases bitmap.width - x,
        {
            let line = bitmap.col(x);
            cols.push(extract_line_clues(&line));
            x = x + 1;
        }
        Image { width: bitmap.width, height: bitmap.height, rows, cols, img: bitmap }
    }

    /// Extracts the puzzle of a decoded image. An image that is not plain
    /// 8-bit RGB is rejected as unsupported and no puzzle is built.
    pub fn from_image(img: image::DynamicImage) -> (r: Result<Image, GameError>)
        ensures
            r matches Ok(g) ==> g.wf(),
            r is Err ==> r->Err_0 is UnsupportedFormatError,
    {
        match to_rgb_bitmap(&img) {
            None => Err(GameError::UnsupportedFormatError(img)),
            Some(bitmap) => Ok(Image::from_bitmap(bitmap)),
        }
    }

    /// A blank board with this puzzle's dimensions: every cell unresolved.
    pub fn new_board(&self) -> (r: Board)
        requires
            self.wf(),
        ensures
            r.wf(),
            r.width == self.width,
            r.height == self.height,
            forall|x: int, y: int|
                0 <= x < self.width && 0 <= y < self.height ==> r.at(x, y) == Pixel::Color(white()),
    {
        let n = self.img.pixels.len();
        proof {
            assert((self.width as usize) * (self.height as usize) <= usize::MAX);
        }
        Board::new(self.width as usize, self.height as usize)
    }

    /// Whether the board matches this puzzle's bitmap: at every coordinate the
    /// board cell's effective color equals the source pixel.
    pub fn is_finished(&self, board: &Board) -> (r: bool)
        requires
            self.wf(),
            board.wf(),
        ensures
            r == solved(self, board),
    {
        if board.width() != self.width as usize || board.height() != self.height as usize {
            return false;
        }
        let mut y: u32 = 0;
        while y < self.height
            invariant
                y <= self.height,
                self.wf(),
                board.wf(),
                board.width == self.width,
                board.height == self.height,
                forall|px: int, py: int|
                    0 <= px < self.width && 0 <= py < y ==> effective(#[trigger] board.at(px, py))
                        == self.img.at(px, py),
            decreases self.height - y,
        {
            let mut x: u32 = 0;
            while x < self.width
                invariant
                    x <= self.width,
                    y < self.height,
                    self.wf(),
                    board.wf(),
                    board.width == self.width,
                    board.height == self.height,
                    forall|px: int, py: int|
                        0 <= px < self.width && 0 <= py < y ==> effective(
                            #[trigger] board.at(px, py),
                        ) == self.img.at(px, py),
                    forall|px: int|
                        0 <= px < x ==> effective(#[trigger] board.at(px, y as int)) == self.img.at(
                            px,
                            y as int,
                        ),
                decreases self.width - x,
            {
                let cell = *board.get_pixel(x as usize, y as usize);
                let color = match cell {
                    Pixel::Color(c) => c,
                    Pixel::Cross => white_color(),
                };
                let pix = self.img.get(x, y);
                if color.r != pix.r || color.g != pix.g || color.b != pix.b {
                    return false;
                }
                x = x + 1;
            }
            y = y + 1;
        }
        true
    }
}

/// The color a cell reads back as: Marked and Unresolved both read as
/// background.
pub open spec fn effective(p: Pixel) -> Color {
    match p {
        Pixel::Color(c) => c,
        Pixel::Cross => white(),
    }
}

/// The completion relation: the board matches the puzzle's bitmap at every
/// coordinate, Marked and Unresolved both reading as background.
pub open spec fn solved(img: &Image, board: &Board) -> bool {
    &&& board.width == img.width
    &&& board.height == img.height
    &&& forall|x: int, y: int|
        0 <= x < img.width && 0 <= y < img.height ==> effective(#[trigger] board.at(x, y))
            == img.img.at(x, y)
}

/// Row y of the board as the colors its cells read back, left to right.
pub open spec fn board_row_effective(board: &Board, y: int) -> Seq<Color> {
    Seq::new(board.width as nat, |x: int| effective(board.at(x, y)))
}

/// Column x of the board as the colors its cells read back, top to bottom.
pub open spec fn board_col_effective(board: &Board, x: int) -> Seq<Color> {
    Seq::new(board.height as nat, |y: int| effective(board.at(x, y)))
}

/// Extraction round trip: a board that has been filled to exactly match a
/// bitmap, with Marked or Unresolved cells where the bitmap is background,
/// yields line by line the identical clue lists as the bitmap itself.
pub proof fn lemma_extraction_round_trip(img: &Image, board: &Board)
    requires
        img.wf(),
        solved(img, board),
    ensures
        forall|y: int|
            0 <= y < img.height ==> line_clues(#[trigger] board_row_effective(board, y))
                == (img.rows@[y])@,
        forall|x: int|
            0 <= x < img.width ==> line_clues(#[trigger] board_col_effective(board, x))
                == (img.cols@[x])@,
{
    assert forall|y: int|
        0 <= y < img.height implies line_clues(#[trigger] board_row_effective(board, y)) == (
    img.rows@[y])@ by {
        assert(board_row_effective(board, y) =~= img.img.row_seq(y));
    }
    assert forall|x: int|
        0 <= x < img.width implies line_clues(#[trigger] board_col_effective(board, x)) == (
    img.cols@[x])@ by {
        assert(board_col_effective(board, x) =~= img.img.col_seq(x));
    }
}

} // verus!
