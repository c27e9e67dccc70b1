use vstd::prelude::*;

use crate::board::Board;
use crate::board::Pixel;
use crate::game::Game;
use crate::picross_image::Clue;
use crate::picross_image::Image;
use crate::picross_image::effective;
use crate::picross_image::line_clues;
use crate::picross_image::solved;
use crate::picross_image::white;

pub mod full_line;

pub use full_line::FullLine;
use full_line::forced_from;
use full_line::lemma_forced_len;
use full_line::lemma_forced_cells_not_white;
use full_line::lemma_line_clues_not_white;
use full_line::lemma_unique_placement;
use full_line::line_proposes;
use full_line::required_from;
use full_line::line_reflects;
use full_line::reflects_upto;

verus! {

/// Whether a line runs along a row or down a column.
#[derive(PartialEq, Eq, Clone, Copy, Debug, Structural)]
pub enum GameView {
    Row,
    Column,
}

/// One row or column of the board paired with its clue list: the view a
/// solving strategy works on, independent of direction.
pub struct GameLine<'a> {
    pub view: GameView,
    pub board_line: Vec<Pixel>,
    pub clues: &'a Vec<Clue>,
    pub index: usize,
}

/// A candidate set of cell assignments for one line, not yet applied to the
/// board: `Some` entries are forced assignments, `None` entries are no opinion.
pub struct Proposition {
    pub view: GameView,
    pub line: Vec<Option<Pixel>>,
    pub index: usize,
}

/// How many cells of a line a proposition assigns.
pub open spec fn count_some(s: Seq<Option<Pixel>>) -> int
    decreases s.len(),
{
    if s.len() == 0 {
        0
    } else {
        count_some(s.drop_last()) + if s.last() is Some {
            1int
        } else {
            0int
        }
    }
}

/// The position along proposition p's line that falls on coordinate (x, y),
/// or -1 when the coordinate is off that line.
pub open spec fn line_position(p: &Proposition, x: int, y: int) -> int {
    match p.view {
        GameView::Row => if y == p.index {
            x
        } else {
            -1
        },
        GameView::Column => if x == p.index {
            y
        } else {
            -1
        },
    }
}

/// The board cell at (x, y) after the first n entries of proposition p have
/// been merged over `old_cell`.
pub open spec fn cell_after_merge_upto(
    p: &Proposition,
    old_cell: Pixel,
    x: int,
    y: int,
    n: int,
) -> Pixel {
    let k = line_position(p, x, y);
    if 0 <= k < n && k < p.line@.len() {
        match p.line@[k] {
            Some(px) => px,
            None => old_cell,
        }
    } else {
        old_cell
    }
}

/// The board cell at (x, y) after proposition p has been merged over `old_cell`.
pub open spec fn cell_after_merge(p: &Proposition, old_cell: Pixel, x: int, y: int) -> Pixel {
    cell_after_merge_upto(p, old_cell, x, y, p.line@.len() as int)
}

impl Proposition {
    pub fn new(pixels: Vec<Option<Pixel>>, line: &GameLine) -> (r: Self)
        ensures
            r.view == line.view,
            r.line == pixels,
            r.index == line.index,
    {
        Proposition { view: line.view, line: pixels, index: line.index }
    }

    /// Counts the cells this proposition assigns.
    pub fn count_pixel(&self) -> (r: usize)
        ensures
            r == count_some(self.line@),
    {
        let len = self.line.len();
        let mut acc: usize = 0;
        let mut i: usize = 0;
        while i < len
            invariant
                i <= len,
                len == self.line@.len(),
                acc <= i,
                acc == count_some(self.line@.take(i as int)),
            decreases len - i,
        {
            proof {
                assert(self.line@.take(i + 1).drop_last() =~= self.line@.take(i as int));
                assert(self.line@.take(i + 1).last() == self.line@[i as int]);
            }
            if self.line[i].is_some() {
                acc = acc + 1;
            }
            i = i + 1;
        }
        proof {
            assert(self.line@.take(len as int) =~= self.line@);
        }
        acc
    }

    /// The board coordinate of position `index` along this proposition's line.
    fn get_position(&self, index: usize) -> (r: (usize, usize))
        ensures
            self.view == GameView::Row ==> r == (index, self.index),
            self.view == GameView::Column ==> r == (self.index, index),
    {
        match self.view {
            GameView::Row => (index, self.index),
            GameView::Column => (self.index, index),
        }
    }

    /// Applies the proposition to the board: every `Some` entry is written at
    /// its line position; `None` entries and off-board positions are untouched.
    pub fn merge(&self, board: &mut Board)
        requires
            old(board).wf(),
        ensures
            final(board).wf(),
            final(board).width == old(board).width,
            final(board).height == old(board).height,
            forall|x: int, y: int|
                0 <= x < old(board).width && 0 <= y < old(board).height ==> final(board).at(x, y)
                    == cell_after_merge(self, old(board).at(x, y), x, y),
    {
        let len = self.line.len();
        let mut i: usize = 0;
        while i < len
            invariant
                board.wf(),
                board.width == old(board).width,
                board.height == old(board).height,
                i <= len,
                len == self.line@.len(),
                forall|x: int, y: int|
                    0 <= x < old(board).width && 0 <= y < old(board).height ==> board.at(x, y)
                        == cell_after_merge_upto(self, old(board).at(x, y), x, y, i as int),
            decreases len - i,
        {
            if let Some(pixel) = self.line[i] {
                let (x, y) = self.get_position(i);
                board.set_pixel(x, y, &pixel);
            }
            i = i + 1;
        }
    }
}

/// Row y of the board as a sequence of cells, left to right.
pub open spec fn board_row_pixels(board: &Board, y: int) -> Seq<Pixel> {
    Seq::new(board.width as nat, |x: int| board.at(x, y))
}

/// Column x of the board as a sequence of cells, top to bottom.
pub open spec fn board_col_pixels(board: &Board, x: int) -> Seq<Pixel> {
    Seq::new(board.height as nat, |y: int| board.at(x, y))
}

/// Whether the exact-fit rule proposes something for row y of the game.
pub open spec fn row_proposes(game: &Game, y: int) -> bool {
    line_proposes((game.image.rows@[y])@, board_row_pixels(&game.board, y))
}

/// Whether the exact-fit rule proposes something for column x of the game.
pub open spec fn col_proposes(game: &Game, x: int) -> bool {
    line_proposes((game.image.cols@[x])@, board_col_pixels(&game.board, x))
}

/// No line of the game admits a forced proposition: propagation is stuck.
pub open spec fn no_proposal(game: &Game) -> bool {
    &&& forall|y: int| 0 <= y < game.board.height ==> !row_proposes(game, y)
    &&& forall|x: int| 0 <= x < game.board.width ==> !col_proposes(game, x)
}

/// Walks the rows of a game in ascending order, yielding one line view each.
pub struct RowIterator<'a> {
    pub game: &'a Game,
    pub y: usize,
}

impl<'a> RowIterator<'a> {
    pub fn new(game: &'a Game) -> (r: Self)
        ensures
            r.game == game,
            r.y == 0,
    {
        RowIterator { game, y: 0 }
    }

    /// The line view of the next row, or None past the last row.
    #[verifier::loop_isolation(false)]
    pub fn next(&mut self) -> (r: Option<GameLine<'a>>)
        requires
            old(self).game.wf(),
        ensures
            final(self).game == old(self).game,
            old(self).y < old(self).game.board.height ==> {
                &&& final(self).y == old(self).y + 1
                &&& r matches Some(l) && l.view == GameView::Row && l.index == old(self).y
                    && l.board_line@ == board_row_pixels(&old(self).game.board, old(self).y as int)
                    && l.clues@ == (old(self).game.image.rows@[old(self).y as int])@
            },
            old(self).y >= old(self).game.board.height ==> r is None && *final(self) == *old(self),
    {
        let game = self.game;
        if self.y >= game.board.height() {
            return None;
        }
        let y = self.y;
        let w = game.board.width();
        let mut line: Vec<Pixel> = Vec::new();
        let mut x: usize = 0;
        while x < w
            invariant
                x <= w,
                line@.len() == x,
                forall|k: int| 0 <= k < x ==> line@[k] == game.board.at(k, y as int),
            decreases w - x,
        {
            line.push(*game.board.get_pixel(x, y));
            x = x + 1;
        }
        proof {
            assert(line@ =~= board_row_pixels(&game.board, y as int));
        }
        let clues = &game.image.rows[y];
        self.y = y + 1;
        Some(GameLine { view: GameView::Row, board_line: line, clues, index: y })
    }
}

/// Walks the columns of a game in ascending order, yielding one line view each.
pub struct ColumnIterator<'a> {
    pub game: &'a Game,
    pub x: usize,
}

impl<'a> ColumnIterator<'a> {
    pub fn new(game: &'a Game) -> (r: Self)
        ensures
            r.game == game,
            r.x == 0,
    {
        ColumnIterator { game, x: 0 }
    }

    /// The line view of the next column, or None past the last column.
    #[verifier::loop_isolation(false)]
    pub fn next(&mut self) -> (r: Option<GameLine<'a>>)
        requires
            old(self).game.wf(),
        ensures
            final(self).game == old(self).game,
            old(self).x < old(self).game.board.width ==> {
                &&& final(self).x == old(self).x + 1
                &&& r matches Some(l) && l.view == GameView::Column && l.index == old(self).x
                    && l.board_line@ == board_col_pixels(&old(self).game.board, old(self).x as int)
                    && l.clues@ == (old(self).game.image.cols@[old(self).x as int])@
            },
            old(self).x >= old(self).game.board.width ==> r is None && *final(self) == *old(self),
    {
        let game = self.game;
        if self.x >= game.board.width() {
            return None;
        }
        let x = self.x;
        let h = game.board.height();
        let mut line: Vec<Pixel> = Vec::new();
        let mut y: usize = 0;
        while y < h
            invariant
                y <= h,
                line@.len() == y,
                forall|k: int| 0 <= k < y ==> line@[k] == game.board.at(x as int, k),
            decreases h - y,
        {
            line.push(*game.board.get_pixel(x, y));
            y = y + 1;
        }
        proof {
            assert(line@ =~= board_col_pixels(&game.board, x as int));
        }
        let clues = &game.image.cols[x];
        self.x = x + 1;
        Some(GameLine { view: GameView::Column, board_line: line, clues, index: x })
    }
}

/// The solving strategies a solver can hold; the exact-fit rule is the only
/// built-in one.
pub enum SolverAlgo {
    FullLine(FullLine),
}

impl SolverAlgo {
    /// Asks the strategy for a proposition on one line.
    pub fn get_proposition(&self, game_line: &GameLine) -> (r: Option<Proposition>)
        ensures
            r is Some <==> line_proposes(game_line.clues@, game_line.board_line@),
            r matches Some(p) ==> {
                &&& p.view == game_line.view
                &&& p.index == game_line.index
                &&& p.line@ == forced_from(game_line.clues@, white()).map_values(
                    |px: Pixel| Some(px),
                )
            },
    {
        match self {
            SolverAlgo::FullLine(algo) => algo.get_proposition(game_line),
        }
    }
}

/// An ordered list of solving strategies, applied rows first then columns,
/// first proposition found wins.
pub struct Solver {
    pub algos: Vec<SolverAlgo>,
}

/// Collects the strategies a solver is to apply, in order.
pub struct SolverBuilder {
    pub algos: Vec<SolverAlgo>,
}

impl SolverBuilder {
    /// Starts with the built-in exact-fit strategy.
    pub fn new() -> (r: SolverBuilder)
        ensures
            r.algos@ == seq![SolverAlgo::FullLine(FullLine)],
    {
        let r = SolverBuilder { algos: vec![SolverAlgo::FullLine(FullLine)] };
        proof {
            assert(r.algos@ =~= seq![SolverAlgo::FullLine(FullLine)]);
        }
        r
    }

    /// Appends a strategy; the earlier ones keep priority.
    pub fn add(self, algo: SolverAlgo) -> (r: SolverBuilder)
        ensures
            r.algos@ == self.algos@.push(algo),
    {
        let mut algos = self.algos;
        algos.push(algo);
        SolverBuilder { algos }
    }

    pub fn build(self) -> (r: Solver)
        ensures
            r.algos@ == self.algos@,
    {
        Solver { algos: self.algos }
    }
}

/// The proposition a propagation step must return: the one of the first line,
/// rows in ascending order before columns in ascending order, for which the
/// exact-fit rule proposes, carrying that line's unique placement.
pub open spec fn proposition_is_first(p: &Proposition, game: &Game) -> bool {
    match p.view {
        GameView::Row => {
            &&& 0 <= p.index < game.board.height
            &&& row_proposes(game, p.index as int)
            &&& forall|k: int| 0 <= k < p.index ==> !row_proposes(game, k)
            &&& p.line@ == forced_from((game.image.rows@[p.index as int])@, white()).map_values(
                |px: Pixel| Some(px),
            )
        },
        GameView::Column => {
            &&& forall|y: int| 0 <= y < game.board.height ==> !row_proposes(game, y)
            &&& 0 <= p.index < game.board.width
            &&& col_proposes(game, p.index as int)
            &&& forall|k: int| 0 <= k < p.index ==> !col_proposes(game, k)
            &&& p.line@ == forced_from((game.image.cols@[p.index as int])@, white()).map_values(
                |px: Pixel| Some(px),
            )
        },
    }
}

/// Each successful step makes progress (law): merging the proposition of a
/// row that proposes writes the row's full placement. Afterwards the row is
/// fully reflected, so the rule proposes nothing further for it; at least one
/// of its cells actually changed; and no cell outside the row was touched.
pub proof fn lemma_merge_progress_row(p: &Proposition, b0: &Board, b1: &Board, clues: Seq<Clue>)
    requires
        b1.width == b0.width,
        b1.height == b0.height,
        p.view == GameView::Row,
        0 <= p.index < b0.height,
        line_proposes(clues, board_row_pixels(b0, p.index as int)),
        p.line@ == forced_from(clues, white()).map_values(|px: Pixel| Some(px)),
        forall|x: int, y: int|
            0 <= x < b0.width && 0 <= y < b0.height ==> b1.at(x, y) == cell_after_merge(
                p,
                b0.at(x, y),
                x,
                y,
            ),
    ensures
        board_row_pixels(b1, p.index as int) == forced_from(clues, white()),
        !line_proposes(clues, board_row_pixels(b1, p.index as int)),
        board_row_pixels(b1, p.index as int) != board_row_pixels(b0, p.index as int),
        forall|y: int|
            0 <= y < b0.height && y != p.index ==> board_row_pixels(b1, y) == board_row_pixels(
                b0,
                y,
            ),
{
    let forced = forced_from(clues, white());
    let idx = p.index as int;
    let w = b0.width as int;
    let bl0 = board_row_pixels(b0, idx);
    let bl1 = board_row_pixels(b1, idx);
    lemma_forced_len(clues, white());
    assert(forced.len() == w);
    assert forall|x: int| 0 <= x < w implies bl1[x] == forced[x] by {
        assert(b1.at(x, idx) == cell_after_merge(p, b0.at(x, idx), x, idx));
        assert(line_position(p, x, idx) == x);
        assert(p.line@[x] == Some(forced[x]));
    }
    assert(bl1 =~= forced);
    assert(!reflects_upto(bl0, forced, forced.len() as int));
    assert(exists|k: int|
        0 <= k < forced.len() && (#[trigger] forced[k]) is Color && bl0[k] != forced[k]);
    let k = choose|k: int|
        0 <= k < forced.len() && (#[trigger] forced[k]) is Color && bl0[k] != forced[k];
    assert(bl1[k] != bl0[k]);
    assert forall|y: int|
        0 <= y < b0.height && y != p.index implies board_row_pixels(b1, y) == board_row_pixels(
        b0,
        y,
    ) by {
        assert forall|x: int|
            0 <= x < w implies board_row_pixels(b1, y)[x] == board_row_pixels(b0, y)[x] by {
            assert(b1.at(x, y) == cell_after_merge(p, b0.at(x, y), x, y));
            assert(line_position(p, x, y) == -1);
        }
        assert(board_row_pixels(b1, y) =~= board_row_pixels(b0, y));
    }
}

/// Each successful step makes progress (law): the column counterpart of
/// `lemma_merge_progress_row`.
pub proof fn lemma_merge_progress_col(p: &Proposition, b0: &Board, b1: &Board, clues: Seq<Clue>)
    requires
        b1.width == b0.width,
        b1.height == b0.height,
        p.view == GameView::Column,
        0 <= p.index < b0.width,
        line_proposes(clues, board_col_pixels(b0, p.index as int)),
        p.line@ == forced_from(clues, white()).map_values(|px: Pixel| Some(px)),
        forall|x: int, y: int|
            0 <= x < b0.width && 0 <= y < b0.height ==> b1.at(x, y) == cell_after_merge(
                p,
                b0.at(x, y),
                x,
                y,
            ),
    ensures
        board_col_pixels(b1, p.index as int) == forced_from(clues, white()),
        !line_proposes(clues, board_col_pixels(b1, p.index as int)),
        board_col_pixels(b1, p.index as int) != board_col_pixels(b0, p.index as int),
        forall|x: int|
            0 <= x < b0.width && x != p.index ==> board_col_pixels(b1, x) == board_col_pixels(
                b0,
                x,
            ),
{
    let forced = forced_from(clues, white());
    let idx = p.index as int;
    let h = b0.height as int;
    let bl0 = board_col_pixels(b0, idx);
    let bl1 = board_col_pixels(b1, idx);
    lemma_forced_len(clues, white());
    assert(forced.len() == h);
    assert forall|y: int| 0 <= y < h implies bl1[y] == forced[y] by {
        assert(b1.at(idx, y) == cell_after_merge(p, b0.at(idx, y), idx, y));
        assert(line_position(p, idx, y) == y);
        assert(p.line@[y] == Some(forced[y]));
    }
    assert(bl1 =~= forced);
    assert(!reflects_upto(bl0, forced, forced.len() as int));
    assert(exists|k: int|
        0 <= k < forced.len() && (#[trigger] forced[k]) is Color && bl0[k] != forced[k]);
    let k = choose|k: int|
        0 <= k < forced.len() && (#[trigger] forced[k]) is Color && bl0[k] != forced[k];
    assert(bl1[k] != bl0[k]);
    assert forall|x: int|
        0 <= x < b0.width && x != p.index implies board_col_pixels(b1, x) == board_col_pixels(
        b0,
        x,
    ) by {
        assert forall|y: int|
            0 <= y < h implies board_col_pixels(b1, x)[y] == board_col_pixels(b0, x)[y] by {
            assert(b1.at(x, y) == cell_after_merge(p, b0.at(x, y), x, y));
            assert(line_position(p, x, y) == -1);
        }
        assert(board_col_pixels(b1, x) =~= board_col_pixels(b0, x));
    }
}

/// Merging the proposition of a zero-slack row of a puzzle writes the
/// bitmap's own row (law): afterwards every cell of that row reads back as
/// the source pixel, the row proposes nothing further, and no cell outside
/// the row was touched.
pub proof fn lemma_merge_solves_row(img: &Image, p: &Proposition, b0: &Board, b1: &Board)
    requires
        img.wf(),
        b0.width == img.width,
        b0.height == img.height,
        b1.width == b0.width,
        b1.height == b0.height,
        p.view == GameView::Row,
        0 <= p.index < b0.height,
        line_proposes((img.rows@[p.index as int])@, board_row_pixels(b0, p.index as int)),
        p.line@ == forced_from((img.rows@[p.index as int])@, white()).map_values(
            |px: Pixel| Some(px),
        ),
        forall|x: int, y: int|
            0 <= x < b0.width && 0 <= y < b0.height ==> b1.at(x, y) == cell_after_merge(
                p,
                b0.at(x, y),
                x,
                y,
            ),
    ensures
        forall|x: int|
            0 <= x < b0.width ==> effective(#[trigger] b1.at(x, p.index as int)) == img.img.at(
                x,
                p.index as int,
            ),
        !line_proposes((img.rows@[p.index as int])@, board_row_pixels(b1, p.index as int)),
        forall|y: int|
            0 <= y < b0.height && y != p.index ==> board_row_pixels(b1, y) == board_row_pixels(
                b0,
                y,
            ),
{
    let idx = p.index as int;
    let clues = (img.rows@[idx])@;
    lemma_merge_progress_row(p, b0, b1, clues);
    let s = img.img.row_seq(idx);
    assert(clues == line_clues(s));
    assert(s.len() == img.width);
    assert(board_row_pixels(b0, idx).len() == b0.width);
    lemma_unique_placement(s);
    assert forall|x: int|
        0 <= x < b0.width implies effective(#[trigger] b1.at(x, idx)) == img.img.at(x, idx) by {
        assert(b1.at(x, idx) == board_row_pixels(b1, idx)[x]);
        assert(board_row_pixels(b1, idx)[x] == forced_from(line_clues(s), white())[x]);
        assert(effective(forced_from(line_clues(s), white())[x]) == s[x]);
        assert(s[x] == img.img.at(x, idx));
    }
}

/// Merging the proposition of a zero-slack column of a puzzle writes the
/// bitmap's own column (law): the column counterpart of
/// `lemma_merge_solves_row`.
pub proof fn lemma_merge_solves_col(img: &Image, p: &Proposition, b0: &Board, b1: &Board)
    requires
        img.wf(),
        b0.width == img.width,
        b0.height == img.height,
        b1.width == b0.width,
        b1.height == b0.height,
        p.view == GameView::Column,
        0 <= p.index < b0.width,
        line_proposes((img.cols@[p.index as int])@, board_col_pixels(b0, p.index as int)),
        p.line@ == forced_from((img.cols@[p.index as int])@, white()).map_values(
            |px: Pixel| Some(px),
        ),
        forall|x: int, y: int|
            0 <= x < b0.width && 0 <= y < b0.height ==> b1.at(x, y) == cell_after_merge(
                p,
                b0.at(x, y),
                x,
                y,
            ),
    ensures
        forall|y: int|
            0 <= y < b0.height ==> effective(#[trigger] b1.at(p.index as int, y)) == img.img.at(
                p.index as int,
                y,
            ),
        !line_proposes((img.cols@[p.index as int])@, board_col_pixels(b1, p.index as int)),
        forall|x: int|
            0 <= x < b0.width && x != p.index ==> board_col_pixels(b1, x) == board_col_pixels(
                b0,
                x,
            ),
{
    let idx = p.index as int;
    let clues = (img.cols@[idx])@;
    lemma_merge_progress_col(p, b0, b1, clues);
    let s = img.img.col_seq(idx);
    assert(clues == line_clues(s));
    assert(s.len() == img.height);
    assert(board_col_pixels(b0, idx).len() == b0.height);
    lemma_unique_placement(s);
    assert forall|y: int|
        0 <= y < b0.height implies effective(#[trigger] b1.at(idx, y)) == img.img.at(idx, y) by {
        assert(b1.at(idx, y) == board_col_pixels(b1, idx)[y]);
        assert(board_col_pixels(b1, idx)[y] == forced_from(line_clues(s), white())[y]);
        assert(effective(forced_from(line_clues(s), white())[y]) == s[y]);
        assert(s[y] == img.img.at(idx, y));
    }
}

/// A row already showing its full placement keeps it when a zero-slack
/// column's proposition is merged (law): both lines come from the same
/// bitmap, so the one cell they share is written with the very value the row
/// already shows. Together with `lemma_merge_solves_row` and its column
/// counterpart this bounds propagation: each successful step turns one more
/// line fully reflected, reflected lines never fall back, so a puzzle whose
/// lines are all zero-slack is solved in at most rows + cols successful
/// steps.
pub proof fn lemma_row_stays_reflected(
    img: &Image,
    p: &Proposition,
    b0: &Board,
    b1: &Board,
    y: int,
)
    requires
        img.wf(),
        b0.width == img.width,
        b0.height == img.height,
        b1.width == b0.width,
        b1.height == b0.height,
        p.view == GameView::Column,
        0 <= p.index < b0.width,
        0 <= y < b0.height,
        line_proposes((img.cols@[p.index as int])@, board_col_pixels(b0, p.index as int)),
        p.line@ == forced_from((img.cols@[p.index as int])@, white()).map_values(
            |px: Pixel| Some(px),
        ),
        forall|x2: int, y2: int|
            0 <= x2 < b0.width && 0 <= y2 < b0.height ==> b1.at(x2, y2) == cell_after_merge(
                p,
                b0.at(x2, y2),
                x2,
                y2,
            ),
        required_from((img.rows@[y])@, white()) == b0.width,
        line_reflects(board_row_pixels(b0, y), forced_from((img.rows@[y])@, white())),
    ensures
        line_reflects(board_row_pixels(b1, y), forced_from((img.rows@[y])@, white())),
{
    let cidx = p.index as int;
    let rclues = (img.rows@[y])@;
    let cclues = (img.cols@[cidx])@;
    let rforced = forced_from(rclues, white());
    let cforced = forced_from(cclues, white());
    let srow = img.img.row_seq(y);
    let scol = img.img.col_seq(cidx);
    assert(rclues == line_clues(srow));
    assert(cclues == line_clues(scol));
    lemma_unique_placement(srow);
    lemma_unique_placement(scol);
    lemma_line_clues_not_white(srow);
    lemma_forced_cells_not_white(rclues, white());
    assert forall|k: int|
        0 <= k < rforced.len() && (#[trigger] rforced[k]) is Color implies board_row_pixels(
        b1,
        y,
    )[k] == rforced[k] by {
        assert(rforced.len() == b0.width);
        assert(board_row_pixels(b1, y)[k] == b1.at(k, y));
        assert(b1.at(k, y) == cell_after_merge(p, b0.at(k, y), k, y));
        if k == cidx {
            assert(cforced.len() == b0.height);
            assert(line_position(p, k, y) == y);
            assert(p.line@[y] == Some(cforced[y]));
            assert(b1.at(k, y) == cforced[y]);
            // both placements read back as the same bitmap pixel, which the
            // row placement shows as a non-background color, so the column
            // placement holds exactly that colored cell there
            assert(effective(cforced[y]) == scol[y]);
            assert(scol[y] == img.img.at(cidx, y));
            assert(effective(rforced[k]) == srow[k]);
            assert(srow[k] == img.img.at(k, y));
            assert(rforced[k] != Pixel::Color(white()));
            assert(effective(rforced[k]) != white());
            assert(effective(cforced[y]) != white());
            assert(cforced[y] is Color);
            assert(cforced[y] == rforced[k]);
        } else {
            assert(line_position(p, k, y) == -1);
            assert(b1.at(k, y) == b0.at(k, y));
            assert(line_reflects(board_row_pixels(b0, y), rforced));
            assert(board_row_pixels(b0, y)[k] == rforced[k]);
        }
    }
}

/// A column already showing its full placement keeps it when a zero-slack
/// row's proposition is merged (law): the column counterpart of
/// `lemma_row_stays_reflected`.
pub proof fn lemma_col_stays_reflected(
    img: &Image,
    p: &Proposition,
    b0: &Board,
    b1: &Board,
    x: int,
)
    requires
        img.wf(),
        b0.width == img.width,
        b0.height == img.height,
        b1.width == b0.width,
        b1.height == b0.height,
        p.view == GameView::Row,
        0 <= p.index < b0.height,
        0 <= x < b0.width,
        line_proposes((img.rows@[p.index as int])@, board_row_pixels(b0, p.index as int)),
        p.line@ == forced_from((img.rows@[p.index as int])@, white()).map_values(
            |px: Pixel| Some(px),
        ),
        forall|x2: int, y2: int|
            0 <= x2 < b0.width && 0 <= y2 < b0.height ==> b1.at(x2, y2) == cell_after_merge(
                p,
                b0.at(x2, y2),
                x2,
                y2,
            ),
        required_from((img.cols@[x])@, white()) == b0.height,
        line_reflects(board_col_pixels(b0, x), forced_from((img.cols@[x])@, white())),
    ensures
        line_reflects(board_col_pixels(b1, x), forced_from((img.cols@[x])@, white())),
{
    let ridx = p.index as int;
    let cclues = (img.cols@[x])@;
    let rclues = (img.rows@[ridx])@;
    let cforced = forced_from(cclues, white());
    let rforced = forced_from(rclues, white());
    let scol = img.img.col_seq(x);
    let srow = img.img.row_seq(ridx);
    assert(cclues == line_clues(scol));
    assert(rclues == line_clues(srow));
    lemma_unique_placement(scol);
    lemma_unique_placement(srow);
    lemma_line_clues_not_white(scol);
    lemma_forced_cells_not_white(cclues, white());
    assert forall|k: int|
        0 <= k < cforced.len() && (#[trigger] cforced[k]) is Color implies board_col_pixels(
        b1,
        x,
    )[k] == cforced[k] by {
        assert(cforced.len() == b0.height);
        assert(board_col_pixels(b1, x)[k] == b1.at(x, k));
        assert(b1.at(x, k) == cell_after_merge(p, b0.at(x, k), x, k));
        if k == ridx {
            assert(rforced.len() == b0.width);
            assert(line_position(p, x, k) == x);
            assert(p.line@[x] == Some(rforced[x]));
            assert(b1.at(x, k) == rforced[x]);
            assert(effective(rforced[x]) == srow[x]);
            assert(srow[x] == img.img.at(x, ridx));
            assert(effective(cforced[k]) == scol[k]);
            assert(scol[k] == img.img.at(x, k));
            assert(cforced[k] != Pixel::Color(white()));
            assert(effective(cforced[k]) != white());
            assert(effective(rforced[x]) != white());
            assert(rforced[x] is Color);
            assert(rforced[x] == cforced[k]);
        } else {
            assert(line_position(p, x, k) == -1);
            assert(b1.at(x, k) == b0.at(x, k));
            assert(line_reflects(board_col_pixels(b0, x), cforced));
            assert(board_col_pixels(b0, x)[k] == cforced[k]);
        }
    }
}

/// One successful propagation step, merged, makes permanent progress (law):
/// the proposed line now shows the bitmap's own content and proposes nothing
/// further; every other line of its orientation is untouched; every
/// zero-slack line of the other orientation that was already fully reflected
/// stays so; and the merged line's cells actually changed. A puzzle whose
/// lines are all zero-slack therefore reaches the solved state in at most
/// rows + cols successful steps: each step turns one more line reflected,
/// for good.
pub proof fn lemma_step_progress(img: &Image, p: &Proposition, b0: &Board, b1: &Board)
    requires
        img.wf(),
        b0.width == img.width,
        b0.height == img.height,
        b1.width == b0.width,
        b1.height == b0.height,
        p.view == GameView::Row ==> 0 <= p.index < b0.height && line_proposes(
            (img.rows@[p.index as int])@,
            board_row_pixels(b0, p.index as int),
        ) && p.line@ == forced_from((img.rows@[p.index as int])@, white()).map_values(
            |px: Pixel| Some(px),
        ),
        p.view == GameView::Column ==> 0 <= p.index < b0.width && line_proposes(
            (img.cols@[p.index as int])@,
            board_col_pixels(b0, p.index as int),
        ) && p.line@ == forced_from((img.cols@[p.index as int])@, white()).map_values(
            |px: Pixel| Some(px),
        ),
        forall|x: int, y: int|
            0 <= x < b0.width && 0 <= y < b0.height ==> b1.at(x, y) == cell_after_merge(
                p,
                b0.at(x, y),
                x,
                y,
            ),
    ensures
        p.view == GameView::Row ==> {
            &&& forall|x: int|
                0 <= x < b0.width ==> effective(#[trigger] b1.at(x, p.index as int)) == img.img.at(
                    x,
                    p.index as int,
                )
            &&& !line_proposes(
                (img.rows@[p.index as int])@,
                board_row_pixels(b1, p.index as int),
            )
            &&& board_row_pixels(b1, p.index as int) != board_row_pixels(b0, p.index as int)
            &&& forall|y: int|
                0 <= y < b0.height && y != p.index ==> board_row_pixels(b1, y)
                    == board_row_pixels(b0, y)
            &&& forall|x: int|
                0 <= x < b0.width && required_from((img.cols@[x])@, white()) == b0.height
                    && line_reflects(
                    board_col_pixels(b0, x),
                    forced_from((img.cols@[x])@, white()),
                ) ==> line_reflects(
                    board_col_pixels(b1, x),
                    #[trigger] forced_from((img.cols@[x])@, white()),
                )
        },
        p.view == GameView::Column ==> {
            &&& forall|y: int|
                0 <= y < b0.height ==> effective(#[trigger] b1.at(p.index as int, y)) == img.img.at(
                    p.index as int,
                    y,
                )
            &&& !line_proposes(
                (img.cols@[p.index as int])@,
                board_col_pixels(b1, p.index as int),
            )
            &&& board_col_pixels(b1, p.index as int) != board_col_pixels(b0, p.index as int)
            &&& forall|x: int|
                0 <= x < b0.width && x != p.index ==> board_col_pixels(b1, x)
                    == board_col_pixels(b0, x)
            &&& forall|y: int|
                0 <= y < b0.height && required_from((img.rows@[y])@, white()) == b0.width
                    && line_reflects(
                    board_row_pixels(b0, y),
                    forced_from((img.rows@[y])@, white()),
                ) ==> line_reflects(
                    board_row_pixels(b1, y),
                    #[trigger] forced_from((img.rows@[y])@, white()),
                )
        },
{
    if p.view == GameView::Row {
        lemma_merge_progress_row(p, b0, b1, (img.rows@[p.index as int])@);
        lemma_merge_solves_row(img, p, b0, b1);
        assert forall|x: int|
            0 <= x < b0.width && required_from((img.cols@[x])@, white()) == b0.height
                && line_reflects(
                board_col_pixels(b0, x),
                forced_from((img.cols@[x])@, white()),
            ) implies line_reflects(
            board_col_pixels(b1, x),
            #[trigger] forced_from((img.cols@[x])@, white()),
        ) by {
            lemma_col_stays_reflected(img, p, b0, b1, x);
        }
    } else {
        lemma_merge_progress_col(p, b0, b1, (img.cols@[p.index as int])@);
        lemma_merge_solves_col(img, p, b0, b1);
        assert forall|y: int|
            0 <= y < b0.height && required_from((img.rows@[y])@, white()) == b0.width
                && line_reflects(
                board_row_pixels(b0, y),
                forced_from((img.rows@[y])@, white()),
            ) implies line_reflects(
            board_row_pixels(b1, y),
            #[trigger] forced_from((img.rows@[y])@, white()),
        ) by {
            lemma_row_stays_reflected(img, p, b0, b1, y);
        }
    }
}

/// Every cell of the board is still unresolved or already reads back as the
/// bitmap's pixel. A blank board has it trivially, and merging zero-slack
/// propositions preserves it.
pub open spec fn board_faithful(img: &Image, board: &Board) -> bool {
    forall|x: int, y: int|
        0 <= x < board.width && 0 <= y < board.height ==> (#[trigger] board.at(x, y))
            == Pixel::Color(white()) || effective(board.at(x, y)) == img.img.at(x, y)
}

/// Merging a zero-slack line's proposition keeps every cell unresolved or
/// correct (law): the merged line becomes correct outright and no other cell
/// changes.
pub proof fn lemma_step_keeps_faithful(img: &Image, p: &Proposition, b0: &Board, b1: &Board)
    requires
        img.wf(),
        b0.width == img.width,
        b0.height == img.height,
        b1.width == b0.width,
        b1.height == b0.height,
        p.view == GameView::Row ==> 0 <= p.index < b0.height && line_proposes(
            (img.rows@[p.index as int])@,
            board_row_pixels(b0, p.index as int),
        ) && p.line@ == forced_from((img.rows@[p.index as int])@, white()).map_values(
            |px: Pixel| Some(px),
        ),
        p.view == GameView::Column ==> 0 <= p.index < b0.width && line_proposes(
            (img.cols@[p.index as int])@,
            board_col_pixels(b0, p.index as int),
        ) && p.line@ == forced_from((img.cols@[p.index as int])@, white()).map_values(
            |px: Pixel| Some(px),
        ),
        forall|x: int, y: int|
            0 <= x < b0.width && 0 <= y < b0.height ==> b1.at(x, y) == cell_after_merge(
                p,
                b0.at(x, y),
                x,
                y,
            ),
        board_faithful(img, b0),
    ensures
        board_faithful(img, b1),
{
    if p.view == GameView::Row {
        lemma_merge_progress_row(p, b0, b1, (img.rows@[p.index as int])@);
        lemma_merge_solves_row(img, p, b0, b1);
        assert forall|x: int, y: int|
            0 <= x < b1.width && 0 <= y < b1.height implies (#[trigger] b1.at(x, y))
            == Pixel::Color(white()) || effective(b1.at(x, y)) == img.img.at(x, y) by {
            if y != p.index {
                assert(board_row_pixels(b1, y) == board_row_pixels(b0, y));
                assert(b1.at(x, y) == board_row_pixels(b1, y)[x]);
                assert(b0.at(x, y) == board_row_pixels(b0, y)[x]);
            }
        }
    } else {
        lemma_merge_progress_col(p, b0, b1, (img.cols@[p.index as int])@);
        lemma_merge_solves_col(img, p, b0, b1);
        assert forall|x: int, y: int|
            0 <= x < b1.width && 0 <= y < b1.height implies (#[trigger] b1.at(x, y))
            == Pixel::Color(white()) || effective(b1.at(x, y)) == img.img.at(x, y) by {
            if x != p.index {
                assert(board_col_pixels(b1, x) == board_col_pixels(b0, x));
                assert(b1.at(x, y) == board_col_pixels(b1, x)[y]);
                assert(b0.at(x, y) == board_col_pixels(b0, x)[y]);
            }
        }
    }
}

/// Whether row y of the board already shows its full placement.
pub open spec fn row_reflected(img: &Image, board: &Board, y: int) -> bool {
    line_reflects(board_row_pixels(board, y), forced_from((img.rows@[y])@, white()))
}

/// Whether column x of the board already shows its full placement.
pub open spec fn col_reflected(img: &Image, board: &Board, x: int) -> bool {
    line_reflects(board_col_pixels(board, x), forced_from((img.cols@[x])@, white()))
}

/// How many of the first n rows already show their full placement.
pub open spec fn reflected_rows_upto(img: &Image, board: &Board, n: int) -> int
    decreases n,
{
    if n <= 0 {
        0
    } else {
        reflected_rows_upto(img, board, n - 1) + if row_reflected(img, board, n - 1) {
            1int
        } else {
            0int
        }
    }
}

/// How many of the first n columns already show their full placement.
pub open spec fn reflected_cols_upto(img: &Image, board: &Board, n: int) -> int
    decreases n,
{
    if n <= 0 {
        0
    } else {
        reflected_cols_upto(img, board, n - 1) + if col_reflected(img, board, n - 1) {
            1int
        } else {
            0int
        }
    }
}

/// How many lines of the board already show their full placement: the
/// measure a merged propagation step advances.
pub open spec fn reflected_line_count(img: &Image, board: &Board) -> int {
    reflected_rows_upto(img, board, board.height as int) + reflected_cols_upto(
        img,
        board,
        board.width as int,
    )
}

proof fn lemma_reflected_rows_bounds(img: &Image, b0: &Board, b1: &Board, n: int, y0: int)
    requires
        0 <= n,
        forall|y: int| 0 <= y < n && row_reflected(img, b0, y) ==> #[trigger] row_reflected(
            img,
            b1,
            y,
        ),
    ensures
        0 <= reflected_rows_upto(img, b0, n) <= n,
        reflected_rows_upto(img, b1, n) >= reflected_rows_upto(img, b0, n),
        0 <= y0 < n && !row_reflected(img, b0, y0) && row_reflected(img, b1, y0)
            ==> reflected_rows_upto(img, b1, n) >= reflected_rows_upto(img, b0, n) + 1,
    decreases n,
{
    if n > 0 {
        lemma_reflected_rows_bounds(img, b0, b1, n - 1, y0);
    }
}

proof fn lemma_reflected_cols_bounds(img: &Image, b0: &Board, b1: &Board, n: int, x0: int)
    requires
        0 <= n,
        forall|x: int| 0 <= x < n && col_reflected(img, b0, x) ==> #[trigger] col_reflected(
            img,
            b1,
            x,
        ),
    ensures
        0 <= reflected_cols_upto(img, b0, n) <= n,
        reflected_cols_upto(img, b1, n) >= reflected_cols_upto(img, b0, n),
        0 <= x0 < n && !col_reflected(img, b0, x0) && col_reflected(img, b1, x0)
            ==> reflected_cols_upto(img, b1, n) >= reflected_cols_upto(img, b0, n) + 1,
    decreases n,
{
    if n > 0 {
        lemma_reflected_cols_bounds(img, b0, b1, n - 1, x0);
    }
}

/// Propagation performs at most rows + cols successful steps (law): on a
/// puzzle whose lines are all zero-slack, merging a proposition strictly
/// increases the number of lines that show their full placement, and that
/// number can never exceed rows + cols.
pub proof fn lemma_step_measure(img: &Image, p: &Proposition, b0: &Board, b1: &Board)
    requires
        img.wf(),
        b0.width == img.width,
        b0.height == img.height,
        b1.width == b0.width,
        b1.height == b0.height,
        forall|y: int|
            0 <= y < b0.height ==> required_from((#[trigger] img.rows@[y])@, white()) == b0.width,
        forall|x: int|
            0 <= x < b0.width ==> required_from((#[trigger] img.cols@[x])@, white()) == b0.height,
        p.view == GameView::Row ==> 0 <= p.index < b0.height && line_proposes(
            (img.rows@[p.index as int])@,
            board_row_pixels(b0, p.index as int),
        ) && p.line@ == forced_from((img.rows@[p.index as int])@, white()).map_values(
            |px: Pixel| Some(px),
        ),
        p.view == GameView::Column ==> 0 <= p.index < b0.width && line_proposes(
            (img.cols@[p.index as int])@,
            board_col_pixels(b0, p.index as int),
        ) && p.line@ == forced_from((img.cols@[p.index as int])@, white()).map_values(
            |px: Pixel| Some(px),
        ),
        forall|x: int, y: int|
            0 <= x < b0.width && 0 <= y < b0.height ==> b1.at(x, y) == cell_after_merge(
                p,
                b0.at(x, y),
                x,
                y,
            ),
    ensures
        reflected_line_count(img, b1) >= reflected_line_count(img, b0) + 1,
        reflected_line_count(img, b0) >= 0,
        reflected_line_count(img, b1) <= b0.height + b0.width,
{
    lemma_step_progress(img, p, b0, b1);
    let h = b0.height as int;
    let w = b0.width as int;
    if p.view == GameView::Row {
        let idx = p.index as int;
        assert forall|y: int|
            0 <= y < h && row_reflected(img, b0, y) implies #[trigger] row_reflected(
            img,
            b1,
            y,
        ) by {
            if y != idx {
                assert(board_row_pixels(b1, y) == board_row_pixels(b0, y));
            }
        }
        assert forall|x: int|
            0 <= x < w && col_reflected(img, b0, x) implies #[trigger] col_reflected(
            img,
            b1,
            x,
        ) by {
            assert(required_from((img.cols@[x])@, white()) == b0.height);
        }
        // the merged row was not yet reflected and now shows its placement
        assert(!row_reflected(img, b0, idx));
        assert(board_row_pixels(b1, idx) == forced_from((img.rows@[idx])@, white())) by {
            lemma_merge_progress_row(p, b0, b1, (img.rows@[idx])@);
        }
        assert(row_reflected(img, b1, idx));
        lemma_reflected_rows_bounds(img, b0, b1, h, idx);
        lemma_reflected_cols_bounds(img, b0, b1, w, 0);
        lemma_reflected_rows_bounds(img, b1, b1, h, 0);
        lemma_reflected_cols_bounds(img, b1, b1, w, 0);
    } else {
        let idx = p.index as int;
        assert forall|x: int|
            0 <= x < w && col_reflected(img, b0, x) implies #[trigger] col_reflected(
            img,
            b1,
            x,
        ) by {
            if x != idx {
                assert(board_col_pixels(b1, x) == board_col_pixels(b0, x));
            }
        }
        assert forall|y: int|
            0 <= y < h && row_reflected(img, b0, y) implies #[trigger] row_reflected(
            img,
            b1,
            y,
        ) by {
            assert(required_from((img.rows@[y])@, white()) == b0.width);
        }
        assert(!col_reflected(img, b0, idx));
        assert(board_col_pixels(b1, idx) == forced_from((img.cols@[idx])@, white())) by {
            lemma_merge_progress_col(p, b0, b1, (img.cols@[idx])@);
        }
        assert(col_reflected(img, b1, idx));
        lemma_reflected_cols_bounds(img, b0, b1, w, idx);
        lemma_reflected_rows_bounds(img, b0, b1, h, 0);
        lemma_reflected_rows_bounds(img, b1, b1, h, 0);
        lemma_reflected_cols_bounds(img, b1, b1, w, 0);
    }
}

/// Termination of propagation (law): a stuck game whose rows are all
/// zero-slack, and whose board never strayed from the bitmap, is solved.
/// With zero slack, "no proposition anywhere" can only mean every row
/// already shows its unique placement, and that placement reads back as the
/// bitmap itself. Together with `lemma_step_progress` and
/// `lemma_step_keeps_faithful` this closes the loop: starting from a blank
/// board, each successful step permanently reflects one more line, so after
/// at most rows + cols successful steps the engine reports either this
/// solved state or a line with slack.
pub proof fn lemma_stuck_zero_slack_is_solved(game: &Game)
    requires
        game.wf(),
        forall|y: int|
            0 <= y < game.board.height ==> required_from(
                (#[trigger] game.image.rows@[y])@,
                white(),
            ) == game.board.width,
        board_faithful(&game.image, &game.board),
        no_proposal(game),
    ensures
        solved(&game.image, &game.board),
{
    let img = &game.image;
    let board = &game.board;
    assert forall|x: int, y: int|
        0 <= x < img.width && 0 <= y < img.height implies effective(#[trigger] board.at(x, y))
        == img.img.at(x, y) by {
        let clues = (img.rows@[y])@;
        let bl = board_row_pixels(board, y);
        let forced = forced_from(clues, white());
        let s = img.img.row_seq(y);
        assert(!row_proposes(game, y));
        assert(required_from(clues, white()) == bl.len());
        assert(line_reflects(bl, forced));
        assert(clues == line_clues(s));
        lemma_unique_placement(s);
        assert(forced.len() == s.len());
        assert(effective(forced[x]) == s[x]);
        assert(s[x] == img.img.at(x, y));
        if forced[x] is Color {
            assert(bl[x] == forced[x]);
            assert(board.at(x, y) == forced[x]);
        } else {
            assert(effective(forced[x]) == white());
            assert(board.at(x, y) == Pixel::Color(white()) || effective(board.at(x, y))
                == img.img.at(x, y));
        }
    }
}

impl Solver {
    /// One propagation step: scans every strategy over all rows, then all
    /// columns, indexes ascending, and returns the first proposition found
    /// without looking further. None means no strategy proposes anything on
    /// the whole board: propagation is stuck. The board is not touched.
    #[verifier::loop_isolation(false)]
    pub fn solve(&self, game: &mut Game) -> (r: Option<Proposition>)
        requires
            old(game).wf(),
        ensures
            *final(game) == *old(game),
            r is None <==> (self.algos@.len() == 0 || no_proposal(old(game))),
            r matches Some(p) ==> proposition_is_first(&p, old(game)),
    {
        let n_algos = self.algos.len();
        let h = game.board.height();
        let w = game.board.width();
        let mut ai: usize = 0;
        while ai < n_algos
            invariant
                ai <= n_algos,
                ai > 0 ==> no_proposal(game),
            decreases n_algos - ai,
        {
            let algo = &self.algos[ai];
            let mut rows = RowIterator::new(game);
            while rows.y < h
                invariant
                    rows.game == &*game,
                    rows.y <= h,
                    forall|k: int| 0 <= k < rows.y ==> !row_proposes(game, k),
                decreases h - rows.y,
            {
                match rows.next() {
                    Some(row) => {
                        if let Some(proposition) = algo.get_proposition(&row) {
                            proof {
                                assert(row_proposes(game, row.index as int));
                                assert(!no_proposal(game));
                            }
                            return Some(proposition);
                        }
                    },
                    None => {
                        proof {
                            assert(false);
                        }
                    },
                }
            }
            let mut cols = ColumnIterator::new(game);
            while cols.x < w
                invariant
                    cols.game == &*game,
                    cols.x <= w,
                    forall|y: int| 0 <= y < h ==> !row_proposes(game, y),
                    forall|k: int| 0 <= k < cols.x ==> !col_proposes(game, k),
                decreases w - cols.x,
            {
                match cols.next() {
                    Some(col) => {
                        if let Some(proposition) = algo.get_proposition(&col) {
                            proof {
                                assert(col_proposes(game, col.index as int));
                                assert(!no_proposal(game));
                            }
                            return Some(proposition);
                        }
                    },
                    None => {
                        proof {
                            assert(false);
                        }
                    },
                }
            }
            ai = ai + 1;
        }
        None
    }
}

} // verus!
