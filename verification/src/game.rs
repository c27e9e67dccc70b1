use vstd::prelude::*;

use crate::picross_image::solved;
use crate::picross_image::white;

pub use crate::board::Board;
pub use crate::board::Pixel;
pub use crate::picross_image::Clue;
pub use crate::picross_image::GameError;
pub use crate::picross_image::Image;

verus! {

/// A puzzle paired with the board being filled in against it.
pub struct Game {
    pub image: Image,
    pub board: Board,
}

impl Game {
    /// The board has the puzzle's dimensions.
    pub open spec fn wf(&self) -> bool {
        &&& self.image.wf()
        &&& self.board.wf()
        &&& self.board.width == self.image.width
        &&& self.board.height == self.image.height
    }

    /// Pairs a puzzle with a freshly created blank board.
    pub fn new(image: Image) -> (r: Game)
        requires
            image.wf(),
        ensures
            r.wf(),
            r.image == image,
            forall|x: int, y: int|
                0 <= x < image.width && 0 <= y < image.height ==> r.board.at(x, y) == Pixel::Color(
                    white(),
                ),
    {
        let board = image.new_board();
        Game { image, board }
    }

    /// Whether the board now matches the puzzle's bitmap.
    pub fn is_finished(&self) -> (r: bool)
        requires
            self.wf(),
        ensures
            r == solved(&self.image, &self.board),
    {
        self.image.is_finished(&self.board)
    }
}

} // verus!
