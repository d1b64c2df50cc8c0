//! The mathematical model of the board, and what it means to place a piece.

use crate::grid::lemma_cell_index;
use crate::grid::lemma_index_cell;
use crate::shape::lemma_counted_cell;
use crate::shape::lemma_quarter_turn;
use crate::shape::lemma_quarter_turn_count;
use crate::shape::lemma_turned_add;
use crate::shape::Shape;
use vstd::prelude::*;

verus! {

/// The number of orientations that a placement tries: the piece as given
/// and its three further quarter turns.
pub const ATTEMPTS: u8 = 4;

/// The owner id of a new board.
pub const FIRST_OWNER: char = 'A';

/// Whether `code` is a Unicode scalar value, that is, the code of a `char`.
pub open spec fn is_scalar(code: int) -> bool {
    0 <= code <= 0xD7FF || 0xE000 <= code <= 0x10FFFF
}

/// The owner id after `id`: the character with the next code, or `id`
/// itself where the next code is not a character's (the id then stays).
pub open spec fn next_owner(id: char) -> char {
    if is_scalar(id as int + 1) {
        (id as int + 1) as char
    } else {
        id
    }
}

/// The character that stands for a cell in the text form of a board.
pub open spec fn owner_char(cell: Option<char>) -> char {
    match cell {
        Some(id) => id,
        None => ' ',
    }
}

/// A board as a value of the logic. Cell `(x, y)` is `cells[x + y * width]`;
/// it is `None` while empty and holds the owner's id once a piece covers it.
pub ghost struct Board {
    pub next_id: char,
    pub width: nat,
    pub height: nat,
    pub cells: Seq<Option<char>>,
}

impl Board {
    /// Exactly `width * height` cells.
    pub open spec fn wf(self) -> bool {
        self.cells.len() == self.width * self.height
    }

    /// The board that `Game::new(w, h)` makes: `w * h` empty cells and the
    /// first owner id. A board without columns has no rows either.
    pub open spec fn fresh(w: nat, h: nat) -> Board {
        Board {
            next_id: FIRST_OWNER,
            width: w,
            height: if w == 0 {
                0
            } else {
                h
            },
            cells: Seq::new(w * h, |i: int| None),
        }
    }

    /// No cell is empty.
    pub open spec fn full(self) -> bool {
        forall|q: int| 0 <= q < self.cells.len() ==> self.cells[q] is Some
    }

    /// The board index under cell `(l, k)` of a piece whose top left cell
    /// lies at index `p`.
    pub open spec fn target(self, p: int, l: int, k: int) -> int {
        p + l + k * self.width
    }

    /// Cell `(l, k)` of the piece at `p` is no obstacle: its target lies on
    /// the board, and is empty if the cell is set.
    pub open spec fn admits(self, s: Shape, p: int, l: int, k: int) -> bool {
        let pos = self.target(p, l, k);
        pos < self.cells.len() && !(self.cells[pos] is Some && s.at(l, k))
    }

    /// The piece can be put with its top left cell at index `p`.
    pub open spec fn fits(self, s: Shape, p: int) -> bool {
        forall|l: int, k: int|
            0 <= l < s.width && 0 <= k < s.height ==> #[trigger] self.admits(s, p, l, k)
    }

    /// `p` is the first index in row order at which the piece fits.
    pub open spec fn is_first_fit(self, s: Shape, p: int) -> bool {
        &&& 0 <= p < self.cells.len()
        &&& self.fits(s, p)
        &&& forall|q: int| 0 <= q < p ==> !self.fits(s, q)
    }

    /// The first index in row order at which the piece fits, if any.
    pub open spec fn first_fit(self, s: Shape) -> Option<int> {
        if exists|p: int| self.is_first_fit(s, p) {
            Some(choose|p: int| self.is_first_fit(s, p))
        } else {
            None
        }
    }

    /// Cell `(l, k)` of the piece at `p` is set and lies over index `q`.
    pub open spec fn hits(self, s: Shape, p: int, l: int, k: int, q: int) -> bool {
        &&& 0 <= l < s.width
        &&& 0 <= k < s.height
        &&& s.at(l, k)
        &&& q == self.target(p, l, k)
    }

    /// Some set cell of the piece at `p` lies over index `q`.
    pub open spec fn covers(self, s: Shape, p: int, q: int) -> bool {
        exists|l: int, k: int| #[trigger] self.hits(s, p, l, k, q)
    }

    /// Some set cell of the piece at `p` that comes before cell `(j, i)` in
    /// row order lies over index `q`.
    pub open spec fn covers_before(self, s: Shape, p: int, q: int, j: int, i: int) -> bool {
        exists|l: int, k: int| #[trigger] self.hits(s, p, l, k, q) && (k < i || (k == i && l < j))
    }

    /// The board after the piece is stamped at `p`: the covered cells hold
    /// the current owner id, the others are as before, and the owner id
    /// moves on.
    pub open spec fn stamped(self, s: Shape, p: int) -> Board {
        Board {
            next_id: next_owner(self.next_id),
            width: self.width,
            height: self.height,
            cells: Seq::new(
                self.cells.len(),
                |q: int|
                    if self.covers(s, p, q) {
                        Some(self.next_id)
                    } else {
                        self.cells[q]
                    },
            ),
        }
    }

    /// Row `y` as text: one character for each cell, and a line break.
    pub open spec fn row_text(self, y: int) -> Seq<char> {
        Seq::new(self.width, |x: int| owner_char(self.cells[x + y * self.width])).push('\n')
    }

    /// The first `rows` rows as text.
    pub open spec fn rows_text(self, rows: nat) -> Seq<char>
        decreases rows,
    {
        if rows == 0 {
            Seq::empty()
        } else {
            self.rows_text((rows - 1) as nat) + self.row_text(rows - 1)
        }
    }

    /// The board as text: one line for each row, the owner's id for an
    /// occupied cell and a blank for an empty one.
    pub open spec fn text(self) -> Seq<char> {
        self.rows_text(self.height)
    }

    /// The orientation and the index that the search settles on: the piece
    /// is tried as it is and then after each further quarter turn,
    /// `attempts` orientations in all, and within an orientation the first
    /// fitting index wins.
    pub open spec fn search(self, s: Shape, attempts: nat) -> Option<(Shape, int)>
        decreases attempts,
    {
        if attempts == 0 {
            None
        } else {
            match self.first_fit(s) {
                Some(p) => Some((s, p)),
                None => self.search(s.quarter_turn(), (attempts - 1) as nat),
            }
        }
    }

    /// The board after the piece is placed, or `None` where it fits in none
    /// of the four orientations.
    pub open spec fn place(self, s: Shape) -> Option<Board> {
        match self.search(s, ATTEMPTS as nat) {
            Some((t, p)) => Some(self.stamped(t, p)),
            None => None,
        }
    }
}

/// There is at most one first fit.
pub proof fn lemma_first_fit_unique(b: Board, s: Shape, p: int)
    requires
        b.is_first_fit(s, p),
    ensures
        b.first_fit(s) == Some(p),
{
    let q = choose|q: int| b.is_first_fit(s, q);
    assert(b.is_first_fit(s, q));
    if q < p {
        assert(!b.fits(s, q));
    }
    if p < q {
        assert(!b.fits(s, p));
    }
}

/// Where the piece fits nowhere there is no first fit.
pub proof fn lemma_no_fit(b: Board, s: Shape)
    requires
        forall|q: int| 0 <= q < b.cells.len() ==> !b.fits(s, q),
    ensures
        b.first_fit(s) is None,
{
}

/// Where the piece fits at some index, it has a first fit, at that index or
/// before it.
pub proof fn lemma_fit_has_first(b: Board, s: Shape, q: int)
    requires
        0 <= q < b.cells.len(),
        b.fits(s, q),
    ensures
        b.first_fit(s) matches Some(p) && p <= q && b.is_first_fit(s, p),
    decreases q,
{
    if exists|e: int| 0 <= e < q && b.fits(s, e) {
        let e = choose|e: int| 0 <= e < q && b.fits(s, e);
        lemma_fit_has_first(b, s, e);
    } else {
        assert(b.is_first_fit(s, q));
        lemma_first_fit_unique(b, s, q);
    }
}

/// What the search returns is the first way to put the piece, in the order
/// in which the ways are tried: the orientation is the one after the
/// smallest number of quarter turns for which the piece fits anywhere, and
/// the index is the first in row order at which it then fits. Where the
/// search returns nothing, the piece fits nowhere in any orientation tried.
pub proof fn lemma_search_order(b: Board, s: Shape, attempts: nat)
    ensures
        match b.search(s, attempts) {
            Some((t, p)) => exists|r: nat|
                {
                    &&& r < attempts
                    &&& t == #[trigger] s.turned(r)
                    &&& b.is_first_fit(t, p)
                    &&& forall|e: nat, q: int|
                        e < r && 0 <= q < b.cells.len() ==> !#[trigger] b.fits(s.turned(e), q)
                },
            None => forall|e: nat, q: int|
                e < attempts && 0 <= q < b.cells.len() ==> !#[trigger] b.fits(s.turned(e), q),
        },
    decreases attempts,
{
    reveal_with_fuel(Shape::turned, 2);
    if attempts > 0 {
        match b.first_fit(s) {
            Some(p) => {
                assert(s == s.turned(0));
            },
            None => {
                let next = s.quarter_turn();
                let rest = (attempts - 1) as nat;
                lemma_search_order(b, next, rest);
                assert forall|q: int| 0 <= q < b.cells.len() implies !b.fits(s, q) by {
                    if b.fits(s, q) {
                        lemma_fit_has_first(b, s, q);
                    }
                }
                assert forall|e: nat| next.turned(e) == s.turned(e + 1) by {
                    lemma_turned_add(s, 1, e);
                }
                match b.search(next, rest) {
                    Some((t, p)) => {
                        let r = choose|r: nat|
                            {
                                &&& r < rest
                                &&& t == #[trigger] next.turned(r)
                                &&& b.is_first_fit(t, p)
                                &&& forall|e: nat, q: int|
                                    e < r && 0 <= q < b.cells.len() ==> !#[trigger] b.fits(
                                        next.turned(e),
                                        q,
                                    )
                            };
                        assert(t == s.turned(r + 1));
                        assert forall|e: nat, q: int|
                            e < r + 1 && 0 <= q < b.cells.len() implies !#[trigger] b.fits(
                            s.turned(e),
                            q,
                        ) by {
                            if e > 0 {
                                assert(s.turned(e) == next.turned((e - 1) as nat));
                            }
                        }
                    },
                    None => {
                        assert forall|e: nat, q: int|
                            e < attempts && 0 <= q < b.cells.len() implies !#[trigger] b.fits(
                            s.turned(e),
                            q,
                        ) by {
                            if e > 0 {
                                assert(s.turned(e) == next.turned((e - 1) as nat));
                            }
                        }
                    },
                }
            },
        }
    }
}

/// In a row of `w` cells, to come first by index is to lie in a row further
/// up, or in the same row further left.
pub proof fn lemma_row_order(x1: int, y1: int, x2: int, y2: int, w: int)
    requires
        0 <= x1 < w,
        0 <= x2 < w,
        0 <= y1,
        0 <= y2,
    ensures
        x1 + y1 * w < x2 + y2 * w <==> y1 < y2 || (y1 == y2 && x1 < x2),
{
    if y1 < y2 {
        assert(y1 * w + w <= y2 * w) by (nonlinear_arith)
            requires
                y1 < y2,
                0 < w,
        ;
    } else if y2 < y1 {
        assert(y2 * w + w <= y1 * w) by (nonlinear_arith)
            requires
                y2 < y1,
                0 < w,
        ;
    }
}

/// Of two ways to put a piece the search takes the one that is tried
/// first. If the piece fits after `r` quarter turns with its top left cell
/// in column `x` of row `y`, then the search succeeds, and it either
/// settles on an orientation after fewer turns, or on that orientation and
/// on a position that is not later in row order: in a row further up, or in
/// the same row and not further right.
pub proof fn lemma_search_takes_first(b: Board, s: Shape, r: nat, x: int, y: int)
    requires
        b.wf(),
        r < ATTEMPTS,
        0 <= x < b.width,
        0 <= y < b.height,
        b.fits(s.turned(r), x + y * b.width),
    ensures
        b.search(s, ATTEMPTS as nat) matches Some((t, p)) && exists|r0: nat|
            {
                &&& r0 <= r
                &&& t == #[trigger] s.turned(r0)
                &&& b.fits(t, p)
                &&& 0 <= p < b.cells.len()
                &&& r0 == r ==> {
                    let px = p % (b.width as int);
                    let py = p / (b.width as int);
                    py < y || (py == y && px <= x)
                }
            },
{
    let w = b.width as int;
    let at = x + y * w;
    lemma_cell_index(x, y, w, b.height as int);
    lemma_search_order(b, s, ATTEMPTS as nat);
    match b.search(s, ATTEMPTS as nat) {
        Some((t, p)) => {
            let r0 = choose|r0: nat|
                {
                    &&& r0 < ATTEMPTS
                    &&& t == #[trigger] s.turned(r0)
                    &&& b.is_first_fit(t, p)
                    &&& forall|e: nat, q: int|
                        e < r0 && 0 <= q < b.cells.len() ==> !#[trigger] b.fits(s.turned(e), q)
                };
            if r < r0 {
                assert(!b.fits(s.turned(r), at));
            }
            if r0 == r {
                if at < p {
                    assert(!b.fits(t, at));
                }
                lemma_index_cell(p, w, b.height as int);
                lemma_row_order(x, y, p % w, p / w, w);
            }
        },
        None => {
            assert(!b.fits(s.turned(r), at));
        },
    }
}

/// The piece of one cell, which is set.
pub open spec fn single_cell() -> Shape {
    Shape { width: 1, height: 1, cells: seq![true] }
}

/// Turning the piece of one cell changes nothing.
pub proof fn lemma_single_cell_turned(k: nat)
    ensures
        single_cell().turned(k) == single_cell(),
    decreases k,
{
    if k > 0 {
        lemma_single_cell_turned((k - 1) as nat);
        assert(single_cell().quarter_turn().cells =~= single_cell().cells);
    }
}

/// On a new board that has a cell, the piece of one cell is placed,
/// whatever its orientation: it takes the top left cell and no other, and
/// gets the first owner id.
pub proof fn lemma_single_cell_on_fresh_board(w: nat, h: nat, turns: nat)
    requires
        w >= 1,
        h >= 1,
    ensures
        Board::fresh(w, h).place(single_cell().turned(turns)) == Some(
            Board {
                next_id: next_owner(FIRST_OWNER),
                cells: Board::fresh(w, h).cells.update(0, Some(FIRST_OWNER)),
                ..Board::fresh(w, h)
            },
        ),
{
    let b = Board::fresh(w, h);
    let s = single_cell();
    lemma_single_cell_turned(turns);
    assert(w * h >= 1) by (nonlinear_arith)
        requires
            w >= 1,
            h >= 1,
    ;
    assert(b.admits(s, 0, 0, 0));
    assert(b.is_first_fit(s, 0));
    lemma_first_fit_unique(b, s, 0);
    reveal_with_fuel(Board::search, 2);
    let after = b.stamped(s, 0);
    assert forall|q: int| 0 <= q < b.cells.len() implies after.cells[q] == b.cells.update(
        0,
        Some(FIRST_OWNER),
    )[q] by {
        if q == 0 {
            assert(b.hits(s, 0, 0, 0, 0));
        } else if b.covers(s, 0, q) {
            let (l, k) = choose|l: int, k: int| #[trigger] b.hits(s, 0, l, k, q);
        }
    }
    assert(after.cells =~= b.cells.update(0, Some(FIRST_OWNER)));
}

/// A piece with a set cell fits nowhere on a board without an empty cell.
proof fn lemma_full_board_has_no_fit(b: Board, s: Shape)
    requires
        b.full(),
        s.wf(),
        s.count() >= 1,
    ensures
        b.first_fit(s) is None,
{
    let (l, k) = lemma_counted_cell(s);
    assert forall|q: int| 0 <= q < b.cells.len() implies !b.fits(s, q) by {
        assert(0 <= k * b.width) by (nonlinear_arith)
            requires
                0 <= k,
                0 <= b.width,
        ;
        assert(!b.admits(s, q, l, k));
    }
    lemma_no_fit(b, s);
}

/// On a board without an empty cell no piece that has a set cell can be
/// placed, in any orientation.
pub proof fn lemma_full_board_refuses(b: Board, s: Shape)
    requires
        b.full(),
        s.wf(),
        s.count() >= 1,
    ensures
        b.place(s) is None,
{
    reveal_with_fuel(Board::search, 5);
    let s1 = s.quarter_turn();
    let s2 = s1.quarter_turn();
    let s3 = s2.quarter_turn();
    lemma_quarter_turn(s);
    lemma_quarter_turn(s1);
    lemma_quarter_turn(s2);
    lemma_quarter_turn_count(s);
    lemma_quarter_turn_count(s1);
    lemma_quarter_turn_count(s2);
    lemma_full_board_has_no_fit(b, s);
    lemma_full_board_has_no_fit(b, s1);
    lemma_full_board_has_no_fit(b, s2);
    lemma_full_board_has_no_fit(b, s3);
}

/// What a placement does to the board. The size stays and the owner id
/// moves on. A cell that was occupied keeps its owner; a cell that changes
/// was empty and now holds the id that was current before the placement.
pub proof fn lemma_place_effect(b: Board, s: Shape)
    requires
        b.wf(),
    ensures
        b.place(s) matches Some(after) ==> {
            &&& after.wf()
            &&& after.width == b.width
            &&& after.height == b.height
            &&& after.cells.len() == b.cells.len()
            &&& after.next_id == next_owner(b.next_id)
            &&& forall|q: int|
                0 <= q < b.cells.len() && b.cells[q] is Some ==> #[trigger] after.cells[q]
                    == b.cells[q]
            &&& forall|q: int|
                0 <= q < b.cells.len() && #[trigger] after.cells[q] != b.cells[q] ==> b.cells[q]
                    is None && after.cells[q] == Some(b.next_id)
        },
{
    lemma_search_order(b, s, ATTEMPTS as nat);
    match b.search(s, ATTEMPTS as nat) {
        Some((t, p)) => {
            let after = b.stamped(t, p);
            assert forall|q: int| 0 <= q < b.cells.len() && b.covers(t, p, q) implies b.cells[q]
                is None by {
                let (l, k) = choose|l: int, k: int| #[trigger] b.hits(t, p, l, k, q);
                assert(b.admits(t, p, l, k));
            }
        },
        None => {},
    }
}

/// Two placements one after the other, on a board whose owner id can still
/// move on. The second piece gets a later id than the first. The cells that
/// the first placement took hold the first id, also after the second
/// placement; the cells that the second took hold the second id; and the
/// two ids differ.
pub proof fn lemma_two_placements(b: Board, s1: Shape, s2: Shape)
    requires
        b.wf(),
        is_scalar(b.next_id as int + 1),
        b.place(s1) is Some,
        b.place(s1)->Some_0.place(s2) is Some,
    ensures
        ({
            let first = b.place(s1)->Some_0;
            let second = first.place(s2)->Some_0;
            &&& first.next_id as int == b.next_id as int + 1
            &&& b.next_id != first.next_id
            &&& forall|q: int|
                0 <= q < b.cells.len() && #[trigger] first.cells[q] != b.cells[q] ==> first.cells[q]
                    == Some(b.next_id) && second.cells[q] == Some(b.next_id)
            &&& forall|q: int|
                0 <= q < b.cells.len() && #[trigger] second.cells[q] != first.cells[q]
                    ==> second.cells[q] == Some(first.next_id)
        }),
{
    let first = b.place(s1)->Some_0;
    lemma_place_effect(b, s1);
    lemma_place_effect(first, s2);
    assert forall|q: int|
        0 <= q < b.cells.len() && #[trigger] first.cells[q] != b.cells[q] implies first.cells[q]
        == Some(b.next_id) && first.place(s2)->Some_0.cells[q] == Some(b.next_id) by {
        assert(first.cells[q] is Some);
    }
}

} // verus!
