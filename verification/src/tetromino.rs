//! A piece: a bitmap with its row width, and the level it was made for.

use crate::bits::bits_from;
use crate::bits::bits_of;
use crate::grid::lemma_area_bound;
use crate::grid::lemma_cell_index;
use crate::grid::lemma_index_cell;
use crate::grid::lemma_rows;
use crate::shape::lemma_ones_none;
use crate::shape::lemma_ones_set;
use crate::shape::lemma_quarter_turn_count;
use crate::shape::ones_of;
use crate::shape::Shape;
use crate::text::decimal;
use crate::text::push_char;
use crate::text::push_decimal;
use fixedbitset::FixedBitSet;
use vstd::arithmetic::div_mod::lemma_fundamental_div_mod;
use vstd::arithmetic::div_mod::lemma_fundamental_div_mod_converse;
use vstd::prelude::*;

verus! {

/// A piece. The cells are kept row by row in a bit set; `stride` is the
/// width of a row, and the height is the number of whole rows.
#[derive(Debug)]
pub struct Tetromino {
    lvl: u8,
    shape: FixedBitSet,
    stride: u8,
}

impl View for Tetromino {
    type V = Shape;

    closed spec fn view(&self) -> Shape {
        Shape {
            width: self.stride as nat,
            height: bits_of(self.shape).len() / (self.stride as nat),
            cells: bits_of(self.shape),
        }
    }
}

/// The index, before a quarter turn of a piece `n` wide and `m` high, of
/// the cell that the turn brings to index `d`.
spec fn turn_source(n: int, m: int, d: int) -> int {
    (n - 1 - d / m) + (d % m) * n
}

/// Whether the source of index `d` lies before cell `(x, y)` in row order.
spec fn turn_done(n: int, m: int, d: int, x: int, y: int) -> bool {
    d % m < y || (d % m == y && n - 1 - d / m < x)
}

/// The number of quarter turns that a rotation by `angle` degrees amounts to,
/// for an angle that is a multiple of 90.
pub open spec fn quarter_turns(angle: int) -> nat {
    ((angle / 90) % 4) as nat
}

/// A multiple of 360 that brings every `i32` above zero.
const LIFT: i64 = 2147483880;

/// Adding `LIFT` to an angle changes neither whether it is a multiple of 90
/// nor, if it is, the number of quarter turns it amounts to.
proof fn lemma_lifted(angle: int)
    ensures
        (angle + LIFT) % 90 == angle % 90,
        angle % 90 == 0 ==> ((angle + LIFT) / 90) % 4 == (angle / 90) % 4,
{
    let q = angle / 90;
    let r = angle % 90;
    lemma_fundamental_div_mod(angle, 90);
    lemma_fundamental_div_mod_converse(angle + LIFT, 90, q + 23860932, r);
    let h = q / 4;
    let g = q % 4;
    lemma_fundamental_div_mod(q, 4);
    lemma_fundamental_div_mod_converse(q + 23860932, 4, h + 5965233, g);
}

/// Whether one of the first `n` marks names the cell at index `d`.
pub open spec fn among(marks: Seq<usize>, n: int, d: int) -> bool {
    exists|i: int| 0 <= i < n && #[trigger] marks[i] == d
}

/// The bitmap of `cells` cells in which exactly the cells that `marks`
/// names are set. A mark that names no cell of the bitmap counts for
/// nothing.
pub open spec fn marked_cells(cells: nat, marks: Seq<usize>) -> Seq<bool> {
    Seq::new(cells, |d: int| among(marks, marks.len() as int, d))
}

/// The character that stands for a cell in the text form of a piece.
pub open spec fn bit_char(on: bool) -> char {
    if on {
        '1'
    } else {
        '0'
    }
}

/// Row `y` of a piece as text: the level, a colon, one character for each
/// cell, a colon and a line break.
pub open spec fn piece_row_text(s: Shape, level: u8, y: int) -> Seq<char> {
    decimal(level as nat) + seq![':'] + Seq::new(s.width, |x: int| bit_char(s.at(x, y))) + seq![
        ':',
        '\n',
    ]
}

/// A line break followed by the first `rows` rows of a piece as text.
pub open spec fn piece_rows_text(s: Shape, level: u8, rows: nat) -> Seq<char>
    decreases rows,
{
    if rows == 0 {
        seq!['\n']
    } else {
        piece_rows_text(s, level, (rows - 1) as nat) + piece_row_text(s, level, rows - 1)
    }
}

/// The text form of a piece: a line break, one line for each row, and a
/// closing line break.
pub open spec fn piece_text(s: Shape, level: u8) -> Seq<char> {
    piece_rows_text(s, level, s.height).push('\n')
}

impl Tetromino {
    /// The bitmap is well formed and neither side exceeds 255.
    pub open spec fn wf(&self) -> bool {
        &&& self@.wf()
        &&& self@.width <= 255
        &&& self@.height <= 255
    }

    /// The level the piece was made for.
    pub closed spec fn spec_level(&self) -> u8 {
        self.lvl
    }

    /// A piece of the given level and row width holding exactly `cells`, or
    /// `None` where the cells do not form a rectangle of that width with at
    /// least one and at most 255 rows.
    pub fn from_cells(lvl: u8, stride: u8, cells: &Vec<bool>) -> (piece: Option<Tetromino>)
        ensures
            piece is Some <==> stride >= 1 && cells@.len() >= 1 && cells@.len() % (stride as nat)
                == 0 && cells@.len() / (stride as nat) <= 255,
            piece matches Some(t) ==> {
                &&& t.wf()
                &&& t.level() == lvl
                &&& t@.width == stride
                &&& t@.height == cells@.len() / (stride as nat)
                &&& t@.cells == cells@
            },
    {
        if stride == 0 || cells.len() == 0 {
            return None;
        }
        let width: usize = stride as usize;
        if cells.len() % width != 0 || cells.len() / width > 255 {
            return None;
        }
        Some(Tetromino::from_bits(lvl, bits_from(cells), stride))
    }

    /// A piece of the given level, `width` cells wide and `height` cells
    /// high, in which the cells at the indices in `marks` are set and no
    /// others, or `None` where a side is 0. An index that lies outside the
    /// piece is passed over, so the piece has at most as many set cells as
    /// there are marks.
    pub fn from_marks(lvl: u8, width: u8, height: u8, marks: &Vec<usize>) -> (piece: Option<
        Tetromino,
    >)
        ensures
            piece is Some <==> width >= 1 && height >= 1,
            piece matches Some(t) ==> {
                &&& t.wf()
                &&& t.level() == lvl
                &&& t@.width == width
                &&& t@.height == height
                &&& t@.cells == marked_cells((width * height) as nat, marks@)
                &&& t@.count() <= marks.len()
            },
    {
        if width == 0 || height == 0 {
            return None;
        }
        proof {
            lemma_area_bound(width as int, height as int);
            lemma_rows(width as int, height as int);
            assert(width * height >= 1) by (nonlinear_arith)
                requires
                    width >= 1,
                    height >= 1,
            ;
        }
        let cells: usize = (width as usize) * (height as usize);
        let mut shape = FixedBitSet::with_capacity(cells);
        proof {
            lemma_ones_none(bits_of(shape));
        }
        let mut i: usize = 0;
        while i < marks.len()
            invariant
                i <= marks.len(),
                bits_of(shape).len() == cells,
                forall|d: int| 0 <= d < cells ==> bits_of(shape)[d] == among(marks@, i as int, d),
                ones_of(bits_of(shape)).len() <= i,
            decreases marks.len() - i,
        {
            let ghost before = bits_of(shape);
            let mark: usize = marks[i];
            if mark < cells {
                proof {
                    if before[mark as int] {
                        assert(before.update(mark as int, true) =~= before);
                    } else {
                        lemma_ones_set(before, mark as int);
                    }
                }
                shape.set(mark, true);
            }
            proof {
                assert forall|d: int| 0 <= d < cells implies bits_of(shape)[d] == among(
                    marks@,
                    i + 1,
                    d,
                ) by {
                    if among(marks@, i as int, d) {
                        let k = choose|k: int| 0 <= k < i && #[trigger] marks@[k] == d;
                        assert(0 <= k < i + 1 && marks@[k] == d);
                    } else if mark == d {
                        assert(marks@[i as int] == d);
                    } else if among(marks@, i + 1, d) {
                        let k = choose|k: int| 0 <= k < i + 1 && #[trigger] marks@[k] == d;
                        assert(0 <= k < i && marks@[k] == d);
                    }
                }
            }
            i += 1;
        }
        assert(bits_of(shape) =~= marked_cells((width * height) as nat, marks@));
        Some(Tetromino::from_bits(lvl, shape, width))
    }

    /// A piece of the given level made of the bits as they are, `stride`
    /// to a row.
    pub(crate) fn from_bits(lvl: u8, shape: FixedBitSet, stride: u8) -> (piece: Tetromino)
        requires
            stride >= 1,
            bits_of(shape).len() >= 1,
            bits_of(shape).len() % (stride as nat) == 0,
            bits_of(shape).len() / (stride as nat) <= 255,
        ensures
            piece.wf(),
            piece.level() == lvl,
            piece@.width == stride,
            piece@.height == bits_of(shape).len() / (stride as nat),
            piece@.cells == bits_of(shape),
    {
        proof {
            let len = bits_of(shape).len() as int;
            lemma_fundamental_div_mod(len, stride as int);
            assert(len / (stride as int) >= 1 && len == (stride as int) * (len / (stride as int)))
                by (nonlinear_arith)
                requires
                    len >= 1,
                    stride >= 1,
                    len / (stride as int) >= 0,
                    len == (stride as int) * (len / (stride as int)) + 0,
            ;
        }
        Tetromino { lvl, shape, stride }
    }

    /// The level the piece was made for.
    #[verifier::when_used_as_spec(spec_level)]
    pub fn level(&self) -> (lvl: u8)
        ensures
            lvl == self.level(),
    {
        self.lvl
    }

    /// The number of cells in a row.
    pub fn width(&self) -> (w: u8)
        ensures
            w == self@.width,
    {
        self.stride
    }

    /// The number of rows.
    pub fn height(&self) -> (h: u8)
        requires
            self.wf(),
        ensures
            h == self@.height,
    {
        (self.shape.len() / (self.stride as usize)) as u8
    }

    /// Whether the cell at index `pos` is set. An index past the last cell
    /// reads as not set.
    pub fn test_pos(&self, pos: usize) -> (on: bool)
        ensures
            on == (pos < self@.cells.len() && self@.cells[pos as int]),
    {
        pos < self.shape.len() && self.shape.contains(pos)
    }

    /// Turns the piece by 90 degrees: width and height swap, the cell at
    /// `(x, y)` comes to lie at `(y, width - 1 - x)`, and so the piece has as
    /// many set cells as before.
    pub fn rotate_quarter(&mut self)
        requires
            old(self).wf(),
        ensures
            final(self).wf(),
            final(self)@ == old(self)@.quarter_turn(),
            final(self)@.count() == old(self)@.count(),
            final(self).level() == old(self).level(),
    {
        proof {
            lemma_quarter_turn_count(self@);
        }
        let n: usize = self.stride as usize;
        let m: usize = self.height() as usize;
        let ghost src = bits_of(self.shape);
        proof {
            lemma_area_bound(n as int, m as int);
        }
        let mut turned = FixedBitSet::with_capacity(n * m);
        proof {
            assert forall|d: int| 0 <= d < n * m implies !turn_done(n as int, m as int, d, 0, 0) by {
                assert((n as int) * (m as int) == (m as int) * (n as int)) by (nonlinear_arith);
                lemma_index_cell(d, m as int, n as int);
            }
        }
        let mut y: usize = 0;
        while y < m
            invariant
                1 <= n <= 255,
                1 <= m <= 255,
                n * m <= 65025,
                y <= m,
                src == bits_of(self.shape),
                src.len() == n * m,
                bits_of(turned).len() == n * m,
                forall|d: int|
                    0 <= d < n * m ==> #[trigger] bits_of(turned)[d] == (turn_done(
                        n as int,
                        m as int,
                        d,
                        0,
                        y as int,
                    ) && src[turn_source(n as int, m as int, d)]),
            decreases m - y,
        {
            let mut x: usize = 0;
            while x < n
                invariant
                    1 <= n <= 255,
                    1 <= m <= 255,
                    n * m <= 65025,
                    y < m,
                    x <= n,
                    src == bits_of(self.shape),
                    src.len() == n * m,
                    bits_of(turned).len() == n * m,
                    forall|d: int|
                        0 <= d < n * m ==> #[trigger] bits_of(turned)[d] == (turn_done(
                            n as int,
                            m as int,
                            d,
                            x as int,
                            y as int,
                        ) && src[turn_source(n as int, m as int, d)]),
                decreases n - x,
            {
                proof {
                    lemma_cell_index(x as int, y as int, n as int, m as int);
                    lemma_cell_index(y as int, n - 1 - x, m as int, n as int);
                    assert((n as int) * (m as int) == (m as int) * (n as int)) by (nonlinear_arith);
                }
                let ghost before = bits_of(turned);
                let to: usize = y + (n - 1 - x) * m;
                if self.shape.contains(x + y * n) {
                    turned.set(to, true);
                }
                proof {
                    assert forall|d: int| 0 <= d < n * m implies #[trigger] bits_of(turned)[d] == (
                    turn_done(n as int, m as int, d, x + 1, y as int) && src[turn_source(
                        n as int,
                        m as int,
                        d,
                    )]) by {
                        lemma_index_cell(d, m as int, n as int);
                        assert(before[d] == (turn_done(n as int, m as int, d, x as int, y as int)
                            && src[turn_source(n as int, m as int, d)]));
                    }
                }
                x += 1;
            }
            proof {
                assert forall|d: int| 0 <= d < n * m implies #[trigger] bits_of(turned)[d] == (
                turn_done(n as int, m as int, d, 0, y + 1) && src[turn_source(
                    n as int,
                    m as int,
                    d,
                )]) by {
                    lemma_index_cell(d, m as int, n as int);
                    assert((n as int) * (m as int) == (m as int) * (n as int)) by (nonlinear_arith);
                }
            }
            y += 1;
        }
        proof {
            let goal = old(self)@.quarter_turn();
            assert((n as int) * (m as int) == (m as int) * (n as int)) by (nonlinear_arith);
            lemma_rows(m as int, n as int);
            assert forall|d: int| 0 <= d < n * m implies bits_of(turned)[d] == goal.cells[d] by {
                lemma_index_cell(d, m as int, n as int);
            }
            assert(bits_of(turned) =~= goal.cells);
        }
        self.shape = turned;
        self.stride = m as u8;
    }

    /// Rotates the piece by `tetha` degrees, by 90 where no angle is given.
    ///
    /// Only whole quarter turns are exact on a grid, and only those are done
    /// here: for a multiple of 90 the piece is turned that many quarters and
    /// the result is `true`; for any other angle the piece is left as it is
    /// and the result is `false`.
    pub fn rotate_deg(&mut self, tetha: Option<i32>) -> (turned: bool)
        requires
            old(self).wf(),
        ensures
            final(self).wf(),
            final(self).level() == old(self).level(),
            turned == (tetha.unwrap_or(90) % 90 == 0),
            turned ==> final(self)@ == old(self)@.turned(quarter_turns(tetha.unwrap_or(90) as int)),
            !turned ==> final(self)@ == old(self)@,
            tetha.unwrap_or(90) % 360 == 0 ==> final(self)@ == old(self)@,
            final(self)@.count() == old(self)@.count(),
    {
        let angle: i32 = match tetha {
            Some(a) => a,
            None => 90,
        };
        // a multiple of 360 that lifts every angle above zero
        let lifted: i64 = angle as i64 + LIFT;
        proof {
            lemma_lifted(angle as int);
        }
        if lifted % 90 != 0 {
            return false;
        }
        let turns: u8 = ((lifted / 90) % 4) as u8;
        let mut done: u8 = 0;
        while done < turns
            invariant
                done <= turns,
                self.wf(),
                self.level() == old(self).level(),
                self@ == old(self)@.turned(done as nat),
                self@.count() == old(self)@.count(),
            decreases turns - done,
        {
            self.rotate_quarter();
            done += 1;
        }
        true
    }

    /// The piece as text: a line break, then for each row the level, a
    /// colon, `1` or `0` for each cell, a colon and a line break, then a
    /// closing line break.
    pub fn render(&self) -> (text: String)
        requires
            self.wf(),
        ensures
            text@ == piece_text(self@, self.level()),
    {
        let w: usize = self.stride as usize;
        let h: usize = self.height() as usize;
        let mut text = String::new();
        push_char(&mut text, '\n');
        let mut y: usize = 0;
        while y < h
            invariant
                self.wf(),
                w == self@.width,
                h == self@.height,
                y <= h,
                text@ == piece_rows_text(self@, self.level(), y as nat),
            decreases h - y,
        {
            let ghost start = text@;
            push_decimal(&mut text, self.lvl);
            push_char(&mut text, ':');
            let ghost head = text@;
            let mut x: usize = 0;
            while x < w
                invariant
                    self.wf(),
                    w == self@.width,
                    h == self@.height,
                    y < h,
                    x <= w,
                    text@ == head + Seq::new(x as nat, |i: int| bit_char(self@.at(i, y as int))),
                decreases w - x,
            {
                proof {
                    lemma_cell_index(x as int, y as int, w as int, h as int);
                    lemma_area_bound(w as int, h as int);
                }
                let ghost row = text@;
                let on = self.shape.contains(x + y * w);
                push_char(&mut text, if on { '1' } else { '0' });
                assert(text@ =~= head + Seq::new(
                    (x + 1) as nat,
                    |i: int| bit_char(self@.at(i, y as int)),
                ));
                x += 1;
            }
            push_char(&mut text, ':');
            push_char(&mut text, '\n');
            assert(text@ =~= start + piece_row_text(self@, self.level(), y as int));
            y += 1;
        }
        push_char(&mut text, '\n');
        text
    }
}

} // verus!
