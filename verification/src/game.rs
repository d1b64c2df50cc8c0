//! The board and the placement of pieces on it.

use crate::board::ATTEMPTS;
use crate::board::Board;
use crate::board::FIRST_OWNER;
use crate::board::is_scalar;
use crate::board::lemma_first_fit_unique;
use crate::board::lemma_full_board_refuses;
use crate::board::lemma_no_fit;
use crate::board::owner_char;
use crate::connect::connected;
use crate::error::Error;
use crate::grid::lemma_area_bound;
use crate::grid::lemma_cell_index;
use crate::grid::lemma_rows;
use crate::shape::lemma_turned_count;
use crate::shape::lemma_turned_wf;
use crate::shape_walk::ShapeWalk;
use crate::tetromino::Tetromino;
use crate::text::push_char;
use crate::walk::lemma_generated_piece;
use crate::walk::lemma_run_level;
use crate::walk::valid_level;
use crate::walk::Walk;
use vstd::prelude::*;

verus! {

/// `char::from_u32`: the character with the given code, and `None` exactly
/// where the code is not a Unicode scalar value.
#[verifier::external_body]
fn char_from_code(code: u32) -> (c: Option<char>)
    ensures
        c is Some <==> is_scalar(code as int),
        c matches Some(ch) ==> ch as u32 == code,
{
    char::from_u32(code)
}

/// A position on the board: column `x` of row `y`.
struct Pos {
    x: u8,
    y: u8,
}

/// The board: its cells row by row, the width of a row, and the id that the
/// next piece will get.
#[derive(Debug)]
pub struct Game {
    id: char,
    stride: u8,
    field: Vec<Option<char>>,
}

impl View for Game {
    type V = Board;

    closed spec fn view(&self) -> Board {
        Board {
            next_id: self.id,
            width: self.stride as nat,
            height: if self.stride == 0 {
                0
            } else {
                self.field@.len() / (self.stride as nat)
            },
            cells: self.field@,
        }
    }
}

impl Game {
    /// The cells form whole rows, at most 255 of them and at most 255 wide.
    pub open spec fn wf(&self) -> bool {
        &&& self@.wf()
        &&& self@.width <= 255
        &&& self@.height <= 255
    }

    /// An empty board `w` cells wide and `h` cells high.
    pub fn new(w: u8, h: u8) -> (game: Game)
        ensures
            game.wf(),
            game@ == Board::fresh(w as nat, h as nat),
    {
        proof {
            lemma_area_bound(w as int, h as int);
        }
        let cells: usize = (w as usize) * (h as usize);
        let mut field: Vec<Option<char>> = Vec::new();
        let mut i: usize = 0;
        while i < cells
            invariant
                i <= cells,
                field@ == Seq::new(i as nat, |k: int| None::<char>),
            decreases cells - i,
        {
            field.push(None);
            assert(field@ =~= Seq::new((i + 1) as nat, |k: int| None::<char>));
            i += 1;
        }
        proof {
            if w > 0 {
                lemma_rows(w as int, h as int);
            }
        }
        Game { id: FIRST_OWNER, stride: w, field }
    }

    /// The number of cells in a row.
    pub fn width(&self) -> (w: u8)
        ensures
            w == self@.width,
    {
        self.stride
    }

    /// The number of rows.
    pub fn height(&self) -> (h: u8)
        requires
            self.wf(),
        ensures
            h == self@.height,
    {
        if self.stride == 0 {
            0
        } else {
            (self.field.len() / (self.stride as usize)) as u8
        }
    }

    /// The board as text: one line for each row, the owner's id for an
    /// occupied cell and a blank for an empty one.
    pub fn render(&self) -> (text: String)
        requires
            self.wf(),
        ensures
            text@ == self@.text(),
    {
        let w: usize = self.stride as usize;
        let h: usize = self.height() as usize;
        let mut text = String::new();
        let mut y: usize = 0;
        while y < h
            invariant
                self.wf(),
                w == self@.width,
                h == self@.height,
                y <= h,
                text@ == self@.rows_text(y as nat),
            decreases h - y,
        {
            let ghost start = text@;
            let mut x: usize = 0;
            while x < w
                invariant
                    self.wf(),
                    w == self@.width,
                    h == self@.height,
                    y < h,
                    x <= w,
                    text@ == start + Seq::new(
                        x as nat,
                        |i: int| owner_char(self@.cells[i + y * self@.width]),
                    ),
                decreases w - x,
            {
                proof {
                    lemma_cell_index(x as int, y as int, w as int, h as int);
                    lemma_area_bound(w as int, h as int);
                }
                let c = match self.field[x + y * w] {
                    Some(id) => id,
                    None => ' ',
                };
                push_char(&mut text, c);
                assert(text@ =~= start + Seq::new(
                    (x + 1) as nat,
                    |i: int| owner_char(self@.cells[i + y * self@.width]),
                ));
                x += 1;
            }
            push_char(&mut text, '\n');
            assert(text@ =~= start + self@.row_text(y as int));
            y += 1;
        }
        text
    }

    /// Makes a piece of `lvl` cells for this board by a walk that takes its
    /// directions from `dirs`, one draw after the other.
    ///
    /// The result is `InvalidLevel` where `lvl` is not one of 1 to 8. For a
    /// valid level it is the piece that the walk has drawn once it is
    /// complete, and `None` where the draws run out before that. Draws that
    /// come after the walk is complete change nothing.
    pub fn rnd_tetrino(&self, lvl: u8, dirs: &Vec<u8>) -> (res: Result<Option<Tetromino>, Error>)
        requires
            self.wf(),
        ensures
            res is Ok <==> valid_level(lvl as int),
            res matches Err(e) ==> e == Error::InvalidLevel,
            res matches Ok(made) ==> {
                let walk = Walk::start(lvl as nat, self@.width, self@.height).run(dirs@);
                &&& made is Some <==> walk.complete()
                &&& made matches Some(piece) ==> piece.wf() && piece@ == walk.crop() && piece.level()
                    == lvl
            },
            self@.width >= lvl && self@.height >= lvl ==> (res matches Ok(Some(piece)) ==> {
                &&& piece@.count() == lvl
                &&& piece@.width <= lvl
                &&& piece@.height <= lvl
                &&& connected(piece@)
            }),
    {
        let mut walk = match ShapeWalk::start(lvl, self.width(), self.height()) {
            Ok(walk) => walk,
            Err(e) => {
                return Err(e);
            },
        };
        let ghost begun = walk@;
        let mut i: usize = 0;
        while i < dirs.len()
            invariant
                i <= dirs.len(),
                walk.wf(),
                walk@.level == lvl,
                walk@ == begun.run(dirs@.take(i as int)),
            decreases dirs.len() - i,
        {
            assert(dirs@.take(i + 1).drop_last() =~= dirs@.take(i as int));
            walk.step(dirs[i]);
            i += 1;
        }
        assert(dirs@.take(i as int) =~= dirs@);
        proof {
            lemma_run_level(begun, dirs@);
            if self@.width >= lvl && self@.height >= lvl && walk@.complete() {
                lemma_generated_piece(lvl as nat, self@.width, self@.height, dirs@);
            }
        }
        if walk.is_complete() {
            Ok(Some(walk.into_shape()))
        } else {
            Ok(None)
        }
    }

    /// Whether the piece can be put with its top left cell at `at`: every
    /// cell of the piece must lie over a cell of the board, and every set
    /// cell over an empty one.
    fn fits_at(&self, shape: &Tetromino, at: &Pos) -> (ok: bool)
        requires
            self.wf(),
            shape.wf(),
            at.x < self@.width,
            at.y < self@.height,
        ensures
            ok == self@.fits(shape@, at.x + at.y * self@.width),
    {
        let w: usize = self.stride as usize;
        let sw: usize = shape.width() as usize;
        let sh: usize = shape.height() as usize;
        let j: usize = at.x as usize;
        let i: usize = at.y as usize;
        let ghost p: int = j + i * w;
        let mut k: usize = 0;
        while k < sh
            invariant
                self.wf(),
                shape.wf(),
                w == self@.width,
                sw == shape@.width,
                sh == shape@.height,
                j == at.x,
                i == at.y,
                j < w,
                i < self@.height,
                p == j + i * w,
                k <= sh,
                forall|l: int, kk: int|
                    0 <= l < sw && 0 <= kk < k ==> #[trigger] self@.admits(shape@, p, l, kk),
            decreases sh - k,
        {
            let mut l: usize = 0;
            while l < sw
                invariant
                    self.wf(),
                    shape.wf(),
                    w == self@.width,
                    sw == shape@.width,
                    sh == shape@.height,
                    j == at.x,
                    i == at.y,
                    j < w,
                    i < self@.height,
                    p == j + i * w,
                    k < sh,
                    l <= sw,
                    forall|ll: int, kk: int|
                        0 <= ll < sw && 0 <= kk < k ==> #[trigger] self@.admits(shape@, p, ll, kk),
                    forall|ll: int| 0 <= ll < l ==> #[trigger] self@.admits(shape@, p, ll, k as int),
                decreases sw - l,
            {
                proof {
                    lemma_cell_index(l as int, k as int, sw as int, sh as int);
                    lemma_area_bound(sw as int, sh as int);
                    assert((i + k) * w == i * w + k * w && 0 <= (i + k) * w <= 129540)
                        by (nonlinear_arith)
                        requires
                            0 <= i <= 254,
                            0 <= k <= 254,
                            0 <= w <= 255,
                    ;
                }
                let pos: usize = j + l + (i + k) * w;
                assert(pos == self@.target(p, l as int, k as int));
                if pos >= self.field.len() || (self.field[pos].is_some() && shape.test_pos(
                    l + k * sw,
                )) {
                    assert(!self@.admits(shape@, p, l as int, k as int));
                    return false;
                }
                l += 1;
            }
            k += 1;
        }
        true
    }

    /// The first position in row order at which the piece fits, if any.
    fn find_fit(&self, shape: &Tetromino) -> (found: Option<Pos>)
        requires
            self.wf(),
            shape.wf(),
        ensures
            match found {
                Some(at) => {
                    &&& at.x < self@.width
                    &&& at.y < self@.height
                    &&& self@.first_fit(shape@) == Some(at.x + at.y * self@.width)
                },
                None => self@.first_fit(shape@) is None,
            },
    {
        let w: u8 = self.width();
        let h: u8 = self.height();
        let mut i: u8 = 0;
        while i < h
            invariant
                self.wf(),
                shape.wf(),
                w == self@.width,
                h == self@.height,
                i <= h,
                forall|q: int| 0 <= q < i * w ==> !self@.fits(shape@, q),
            decreases h - i,
        {
            let mut j: u8 = 0;
            while j < w
                invariant
                    self.wf(),
                    shape.wf(),
                    w == self@.width,
                    h == self@.height,
                    i < h,
                    j <= w,
                    forall|q: int| 0 <= q < j + i * w ==> !self@.fits(shape@, q),
                decreases w - j,
            {
                let at = Pos { x: j, y: i };
                if self.fits_at(shape, &at) {
                    proof {
                        lemma_cell_index(j as int, i as int, w as int, h as int);
                        lemma_first_fit_unique(self@, shape@, j + i * w);
                    }
                    return Some(at);
                }
                j += 1;
            }
            assert((i + 1) * w == w + i * w) by (nonlinear_arith);
            i += 1;
        }
        proof {
            assert(h * w == w * h) by (nonlinear_arith);
            lemma_no_fit(self@, shape@);
        }
        None
    }

    /// Stamps the piece with its top left cell at `coords`: every cell of
    /// the board under a set cell of the piece gets the current owner id,
    /// and the owner id moves on.
    fn put_shape(&mut self, coords: Pos, shape: &Tetromino)
        requires
            old(self).wf(),
            shape.wf(),
            coords.x < old(self)@.width,
            coords.y < old(self)@.height,
            old(self)@.fits(shape@, coords.x + coords.y * old(self)@.width),
        ensures
            final(self).wf(),
            final(self)@ == old(self)@.stamped(shape@, coords.x + coords.y * old(self)@.width),
    {
        let w: usize = self.stride as usize;
        let sw: usize = shape.width() as usize;
        let sh: usize = shape.height() as usize;
        let x: usize = coords.x as usize;
        let y: usize = coords.y as usize;
        let id: char = self.id;
        let ghost p: int = x + y * w;
        let ghost b = self@;
        let ghost s = shape@;
        let mut i: usize = 0;
        while i < sh
            invariant
                shape.wf(),
                s == shape@,
                b.wf(),
                b.fits(s, p),
                b.width == w,
                b.next_id == id,
                self.stride == w,
                self.id == id,
                sw == s.width,
                sh == s.height,
                x < w,
                y <= 254,
                p == x + y * w,
                i <= sh,
                self.field@.len() == b.cells.len(),
                forall|q: int|
                    0 <= q < b.cells.len() ==> self.field@[q] == (if b.covers_before(s, p, q, 0, i as int) {
                        Some(id)
                    } else {
                        b.cells[q]
                    }),
            decreases sh - i,
        {
            let mut j: usize = 0;
            while j < sw
                invariant
                    shape.wf(),
                    s == shape@,
                    b.wf(),
                    b.fits(s, p),
                    b.width == w,
                    b.next_id == id,
                    self.stride == w,
                    self.id == id,
                    sw == s.width,
                    sh == s.height,
                    x < w,
                    y <= 254,
                    p == x + y * w,
                    i < sh,
                    j <= sw,
                    self.field@.len() == b.cells.len(),
                    forall|q: int|
                        0 <= q < b.cells.len() ==> self.field@[q] == (if b.covers_before(
                            s,
                            p,
                            q,
                            j as int,
                            i as int,
                        ) {
                            Some(id)
                        } else {
                            b.cells[q]
                        }),
                decreases sw - j,
            {
                proof {
                    lemma_cell_index(j as int, i as int, sw as int, sh as int);
                    lemma_area_bound(sw as int, sh as int);
                    assert((i + y) * w == y * w + i * w && 0 <= (i + y) * w <= 129540)
                        by (nonlinear_arith)
                        requires
                            0 <= i <= 254,
                            0 <= y <= 254,
                            0 <= w <= 255,
                    ;
                    assert(b.admits(s, p, j as int, i as int));
                }
                let ghost before = self.field@;
                let on = shape.test_pos(j + i * sw);
                let pos: usize = j + x + (i + y) * w;
                assert(pos == b.target(p, j as int, i as int));
                if on {
                    self.field.set(pos, Some(id));
                }
                proof {
                    assert forall|q: int| 0 <= q < b.cells.len() implies self.field@[q] == (
                    if b.covers_before(s, p, q, j + 1, i as int) {
                        Some(id)
                    } else {
                        b.cells[q]
                    }) by {
                        if b.covers_before(s, p, q, j as int, i as int) {
                            let (l, k) = choose|l: int, k: int| #[trigger]
                                b.hits(s, p, l, k, q) && (k < i || (k == i && l < j));
                            assert(b.hits(s, p, l, k, q) && (k < i || (k == i && l < j + 1)));
                        } else if on && q == pos {
                            assert(b.hits(s, p, j as int, i as int, q));
                        } else if b.covers_before(s, p, q, j + 1, i as int) {
                            let (l, k) = choose|l: int, k: int| #[trigger]
                                b.hits(s, p, l, k, q) && (k < i || (k == i && l < j + 1));
                            assert(b.hits(s, p, l, k, q) && (k < i || (k == i && l < j)));
                        }
                    }
                }
                j += 1;
            }
            proof {
                assert forall|q: int| 0 <= q < b.cells.len() implies (b.covers_before(
                    s,
                    p,
                    q,
                    sw as int,
                    i as int,
                ) <==> b.covers_before(s, p, q, 0, i + 1)) by {
                    if b.covers_before(s, p, q, sw as int, i as int) {
                        let (l, k) = choose|l: int, k: int| #[trigger]
                            b.hits(s, p, l, k, q) && (k < i || (k == i && l < sw));
                        assert(b.hits(s, p, l, k, q) && (k < i + 1 || (k == i + 1 && l < 0)));
                    }
                    if b.covers_before(s, p, q, 0, i + 1) {
                        let (l, k) = choose|l: int, k: int| #[trigger]
                            b.hits(s, p, l, k, q) && (k < i + 1 || (k == i + 1 && l < 0));
                        assert(b.hits(s, p, l, k, q) && (k < i || (k == i && l < sw)));
                    }
                }
            }
            i += 1;
        }
        let next = match char_from_code(id as u32 + 1) {
            Some(c) => c,
            None => id,
        };
        self.id = next;
        proof {
            let goal = b.stamped(s, p);
            assert forall|q: int| 0 <= q < b.cells.len() implies self.field@[q] == goal.cells[q] by {
                if b.covers_before(s, p, q, 0, sh as int) {
                    let (l, k) = choose|l: int, k: int| #[trigger]
                        b.hits(s, p, l, k, q) && (k < sh || (k == sh && l < 0));
                    assert(b.hits(s, p, l, k, q));
                }
                if b.covers(s, p, q) {
                    let (l, k) = choose|l: int, k: int| #[trigger] b.hits(s, p, l, k, q);
                    assert(b.hits(s, p, l, k, q) && (k < sh || (k == sh && l < 0)));
                }
            }
            assert(self.field@ =~= goal.cells);
        }
    }

    /// Places the piece on the board.
    ///
    /// The piece is first given `turns % 4` quarter turns. Then up to four
    /// orientations are tried, the piece as it is and after each further
    /// quarter turn; within an orientation the positions are tried row by
    /// row from the top left. At the first fit the piece is stamped with
    /// the current owner id, the id moves on, and the result is `Ok(true)`.
    /// Where nothing fits the board is left as it was and the result is
    /// `CannotPlace` with the level of the piece.
    pub fn put_tetrino(&mut self, shape: Tetromino, turns: u8) -> (res: Result<bool, Error>)
        requires
            old(self).wf(),
            shape.wf(),
        ensures
            final(self).wf(),
            match old(self)@.place(shape@.turned((turns % 4) as nat)) {
                Some(b) => res == Ok::<bool, Error>(true) && final(self)@ == b,
                None => res == Err::<bool, Error>(Error::CannotPlace { level: shape.level() })
                    && final(self)@ == old(self)@,
            },
            old(self)@.full() && shape@.count() >= 1 ==> res is Err && final(self)@ == old(self)@,
    {
        proof {
            if self@.full() && shape@.count() >= 1 {
                lemma_turned_wf(shape@, (turns % 4) as nat);
                lemma_turned_count(shape@, (turns % 4) as nat);
                lemma_full_board_refuses(self@, shape@.turned((turns % 4) as nat));
            }
        }
        let ghost given = shape@;
        let level: u8 = shape.level();
        let mut piece = shape;
        let spins: u8 = turns % 4;
        let mut spun: u8 = 0;
        while spun < spins
            invariant
                spun <= spins,
                piece.wf(),
                piece@ == given.turned(spun as nat),
            decreases spins - spun,
        {
            piece.rotate_quarter();
            spun += 1;
        }
        let ghost first = piece@;
        let mut attempt: u8 = 0;
        while attempt < ATTEMPTS
            invariant
                attempt <= ATTEMPTS,
                self.wf(),
                *self == *old(self),
                piece.wf(),
                level == shape.level(),
                first == shape@.turned((turns % 4) as nat),
                old(self)@.full() && shape@.count() >= 1 ==> old(self)@.place(first) is None,
                self@.search(first, ATTEMPTS as nat) == self@.search(
                    piece@,
                    (ATTEMPTS - attempt) as nat,
                ),
            decreases ATTEMPTS - attempt,
        {
            match self.find_fit(&piece) {
                Some(at) => {
                    self.put_shape(at, &piece);
                    return Ok(true);
                },
                None => {},
            }
            piece.rotate_quarter();
            attempt += 1;
        }
        Err(Error::CannotPlace { level })
    }
}

} // verus!
