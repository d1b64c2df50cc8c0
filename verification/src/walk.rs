//! The random walk that makes a piece, as a state machine: the caller draws
//! the directions, and each draw is one step.

use crate::connect::adjacent;
use crate::connect::connected;
use crate::connect::is_path;
use crate::connect::lemma_path_stays;
use crate::connect::lemma_rooted_connected;
use crate::connect::linked;
use crate::connect::rooted;
use crate::grid::lemma_cell_index;
use crate::grid::lemma_index_cell;
use crate::shape::lemma_ones_finite;
use crate::shape::lemma_ones_none;
use crate::shape::lemma_ones_set;
use crate::shape::ones_of;
use crate::shape::Shape;
use vstd::arithmetic::div_mod::lemma_fundamental_div_mod_converse;
use vstd::prelude::*;
use vstd::set_lib::lemma_int_range;
use vstd::set_lib::lemma_len_subset;
use vstd::set_lib::lemma_map_size;
use vstd::set_lib::lemma_map_size_bound;
use vstd::set_lib::set_int_range;

verus! {

/// The smallest level.
pub const MIN: u8 = 1;

/// The largest level.
pub const MAX: u8 = 8;

/// One row up.
pub const UP: u8 = 0;

/// One row down.
pub const DOWN: u8 = 1;

/// One column to the left.
pub const LEFT: u8 = 2;

/// One column to the right.
pub const RIGHT: u8 = 3;

/// Whether `lvl` is a level that a piece can have.
pub open spec fn valid_level(lvl: int) -> bool {
    MIN <= lvl <= MAX
}

/// The smaller of two numbers.
pub open spec fn least(a: nat, b: nat) -> nat {
    if a <= b {
        a
    } else {
        b
    }
}

/// A walk as a value of the logic.
///
/// The work area is `mw` wide and `mh` high and its cell `(x, y)` is
/// `area[x + y * mw]`. The cursor stands at `(tx, ty)`; `tw` and `th` are
/// the largest column and row it has reached; `count` is the number of
/// cells marked so far.
pub ghost struct Walk {
    pub level: nat,
    pub mw: nat,
    pub mh: nat,
    pub area: Seq<bool>,
    pub count: nat,
    pub tx: nat,
    pub ty: nat,
    pub tw: nat,
    pub th: nat,
}

impl Walk {
    /// The index of the cursor's cell.
    pub open spec fn cursor(self) -> int {
        (self.tx + self.ty * self.mw) as int
    }

    /// The walk after the cursor's cell is marked. A cell that is marked
    /// already is not counted again, and an index outside the work area
    /// marks nothing.
    pub open spec fn marked(self) -> Walk {
        let pos = self.cursor();
        if pos < self.area.len() && !self.area[pos] {
            Walk { area: self.area.update(pos, true), count: self.count + 1, ..self }
        } else {
            self
        }
    }

    /// The walk for a piece of `level` cells on a board `bw` wide and `bh`
    /// high, with the cursor at the origin and the origin marked. The work
    /// area is the board cut down to `level` cells each way.
    pub open spec fn start(level: nat, bw: nat, bh: nat) -> Walk {
        let mw = least(level, bw);
        let mh = least(level, bh);
        Walk {
            level,
            mw,
            mh,
            area: Seq::new(mw * mh, |i: int| false),
            count: 0,
            tx: 0,
            ty: 0,
            tw: 0,
            th: 0,
        }.marked()
    }

    /// The walk has marked as many cells as the level asks for.
    pub open spec fn complete(self) -> bool {
        self.count >= self.level
    }

    /// The walk with the cursor moved one cell in direction `dir`, or `None`
    /// where the move is refused: up from row 0, down from the last row,
    /// left from column 0, right from the last column, and any `dir` that
    /// is none of the four. The last row is taken to be `mw - 1` and the
    /// last column `mh - 1`: the row is held against the width of the work
    /// area and the column against its height.
    pub open spec fn moved(self, dir: u8) -> Option<Walk> {
        if dir == UP {
            if self.ty == 0 {
                None
            } else {
                Some(Walk { ty: (self.ty - 1) as nat, ..self })
            }
        } else if dir == DOWN {
            if self.ty + 1 >= self.mw {
                None
            } else {
                Some(
                    Walk {
                        ty: self.ty + 1,
                        th: if self.ty + 1 > self.th {
                            self.ty + 1
                        } else {
                            self.th
                        },
                        ..self
                    },
                )
            }
        } else if dir == LEFT {
            if self.tx == 0 {
                None
            } else {
                Some(Walk { tx: (self.tx - 1) as nat, ..self })
            }
        } else if dir == RIGHT {
            if self.tx + 1 >= self.mh {
                None
            } else {
                Some(
                    Walk {
                        tx: self.tx + 1,
                        tw: if self.tx + 1 > self.tw {
                            self.tx + 1
                        } else {
                            self.tw
                        },
                        ..self
                    },
                )
            }
        } else {
            None
        }
    }

    /// The walk after one draw: a complete walk and a refused move change
    /// nothing; otherwise the cursor moves and its new cell is marked.
    pub open spec fn step(self, dir: u8) -> Walk {
        if self.complete() {
            self
        } else {
            match self.moved(dir) {
                Some(w) => w.marked(),
                None => self,
            }
        }
    }

    /// The walk after the draws `dirs`, in order.
    pub open spec fn run(self, dirs: Seq<u8>) -> Walk
        decreases dirs.len(),
    {
        if dirs.len() == 0 {
            self
        } else {
            self.run(dirs.drop_last()).step(dirs.last())
        }
    }

    /// The piece that the walk has drawn: the columns `0..=tw` of the rows
    /// `0..=th` of the work area. A cell past the end of the work area
    /// reads as not set.
    pub open spec fn crop(self) -> Shape {
        let w = self.tw + 1;
        let h = self.th + 1;
        Shape {
            width: w,
            height: h,
            cells: Seq::new(
                w * h,
                |d: int|
                    {
                        let p = d % (w as int) + (d / (w as int)) * self.mw;
                        p < self.area.len() && self.area[p]
                    },
            ),
        }
    }

    /// The number of cells that the walk can ever mark. The cursor comes to
    /// the columns below `mh` of the rows below `mw`, and a cell is marked
    /// only where its index lies in the work area: that leaves `mh * mh`
    /// cells where the work area is at least as wide as it is high, and
    /// otherwise the indices up to that of the last column in the last row,
    /// which all lie in the work area.
    pub open spec fn reach(self) -> nat {
        if self.mh <= self.mw {
            self.mh * self.mh
        } else if self.mw == 0 {
            0
        } else {
            (self.mh + (self.mw - 1) * self.mw) as nat
        }
    }

    /// The work area as a bitmap.
    pub open spec fn area_shape(self) -> Shape {
        Shape { width: self.mw, height: self.mh, cells: self.area }
    }

    /// On a square work area the cursor stands on a marked cell, and every
    /// marked cell is linked with the origin.
    pub open spec fn tied(self) -> bool {
        self.mw == self.mh && self.mw >= 1 ==> {
            &&& 0 <= self.cursor() < self.area.len()
            &&& self.area[self.cursor()]
            &&& rooted(self.area_shape(), 0)
        }
    }

    /// What holds of every walk that `start` and `step` can reach.
    pub open spec fn inv(self) -> bool {
        &&& valid_level(self.level as int)
        &&& self.mw <= self.level
        &&& self.mh <= self.level
        &&& self.area.len() == self.mw * self.mh
        &&& self.count <= self.level
        &&& self.count == ones_of(self.area).len()
        &&& self.tx <= self.tw
        &&& self.ty <= self.th
        &&& self.tw < self.mh || self.tw == 0
        &&& self.th < self.mw || self.th == 0
        &&& forall|p: int|
            0 <= p < self.area.len() && #[trigger] self.area[p] ==> p <= self.tw + self.th * self.mw
        &&& self.mh <= self.mw ==> forall|p: int|
            0 <= p < self.area.len() && #[trigger] self.area[p] ==> p % (self.mw as int) <= self.tw
                && p / (self.mw as int) <= self.th
    }
}

/// Marking the cursor's cell keeps the invariant while the count is still
/// below the level.
pub proof fn lemma_marked_inv(w: Walk)
    requires
        w.inv(),
        w.count < w.level,
    ensures
        w.marked().inv(),
{
    let pos = w.cursor();
    if pos < w.area.len() && !w.area[pos] {
        lemma_ones_set(w.area, pos);
        let m = w.marked();
        assert(w.ty * w.mw <= w.th * w.mw) by (nonlinear_arith)
            requires
                w.ty <= w.th,
        ;
        assert forall|p: int| 0 <= p < m.area.len() && #[trigger] m.area[p] implies p <= m.tw + m.th
            * m.mw by {
            if p != pos {
                assert(w.area[p]);
            }
        }
        if w.mh <= w.mw {
            assert(w.mw > 0) by (nonlinear_arith)
                requires
                    0 <= pos < w.mw * w.mh,
            ;
            assert(w.tx < w.mw);
            lemma_fundamental_div_mod_converse(pos, w.mw as int, w.ty as int, w.tx as int);
            assert forall|p: int| 0 <= p < m.area.len() && #[trigger] m.area[p] implies p % (
            m.mw as int) <= m.tw && p / (m.mw as int) <= m.th by {
                if p != pos {
                    assert(w.area[p]);
                }
            }
        }
    }
}

/// The walk starts within the invariant.
pub proof fn lemma_start_inv(level: nat, bw: nat, bh: nat)
    requires
        valid_level(level as int),
    ensures
        Walk::start(level, bw, bh).inv(),
{
    let mw = least(level, bw);
    let mh = least(level, bh);
    let w0 = Walk {
        level,
        mw,
        mh,
        area: Seq::new(mw * mh, |i: int| false),
        count: 0,
        tx: 0,
        ty: 0,
        tw: 0,
        th: 0,
    };
    lemma_ones_none(w0.area);
    assert(w0.inv());
    lemma_marked_inv(w0);
}

/// Moving the cursor keeps the invariant.
pub proof fn lemma_moved_inv(w: Walk, dir: u8)
    requires
        w.inv(),
        w.moved(dir) is Some,
    ensures
        w.moved(dir)->Some_0.inv(),
{
    let m = w.moved(dir)->Some_0;
    assert(w.th * w.mw <= m.th * m.mw) by (nonlinear_arith)
        requires
            w.th <= m.th,
            w.mw == m.mw,
    ;
    assert forall|p: int| 0 <= p < m.area.len() && #[trigger] m.area[p] implies p <= m.tw + m.th
        * m.mw by {
        assert(w.area[p]);
    }
}

/// Every step keeps the invariant.
pub proof fn lemma_step_inv(w: Walk, dir: u8)
    requires
        w.inv(),
    ensures
        w.step(dir).inv(),
{
    if !w.complete() {
        match w.moved(dir) {
            Some(m) => {
                lemma_moved_inv(w, dir);
                lemma_marked_inv(m);
            },
            None => {},
        }
    }
}

/// Every run keeps the invariant.
pub proof fn lemma_run_inv(w: Walk, dirs: Seq<u8>)
    requires
        w.inv(),
    ensures
        w.run(dirs).inv(),
    decreases dirs.len(),
{
    if dirs.len() > 0 {
        lemma_run_inv(w, dirs.drop_last());
        lemma_step_inv(w.run(dirs.drop_last()), dirs.last());
    }
}

/// No draw changes the level or the work area's size.
pub proof fn lemma_run_level(w: Walk, dirs: Seq<u8>)
    ensures
        w.run(dirs).level == w.level,
        w.run(dirs).mw == w.mw,
        w.run(dirs).mh == w.mh,
    decreases dirs.len(),
{
    if dirs.len() > 0 {
        lemma_run_level(w, dirs.drop_last());
    }
}

/// Where the work area is at least as wide as it is high, the piece that
/// the walk has drawn holds exactly the cells that the walk has marked.
pub proof fn lemma_crop_count(w: Walk)
    requires
        w.inv(),
        w.mh <= w.mw,
    ensures
        w.crop().wf(),
        w.crop().count() == w.count,
{
    let c = w.crop();
    let cw = (w.tw + 1) as int;
    let ch = (w.th + 1) as int;
    let mw = w.mw as int;
    let mh = w.mh as int;
    if mw == 0 || mh == 0 {
        assert(w.area.len() == 0) by (nonlinear_arith)
            requires
                w.area.len() == mw * mh,
                mw == 0 || mh == 0,
        ;
        lemma_ones_none(w.area);
        lemma_ones_none(c.cells);
    } else {
        let to = |d: int| d % cw + (d / cw) * mw;
        lemma_ones_finite(c.cells);
        assert forall|d1: int, d2: int|
            c.ones().contains(d1) && c.ones().contains(d2) && #[trigger] to(d1) == #[trigger] to(
                d2,
            ) implies d1 == d2 by {
            lemma_index_cell(d1, cw, ch);
            lemma_index_cell(d2, cw, ch);
            lemma_cell_index(d1 % cw, d1 / cw, mw, ch);
            lemma_cell_index(d2 % cw, d2 / cw, mw, ch);
        }
        assert forall|p: int| c.ones().map(to).contains(p) <==> ones_of(w.area).contains(p) by {
            if c.ones().map(to).contains(p) {
                let d = choose|d: int| c.ones().contains(d) && p == to(d);
                assert(w.area[p]);
            }
            if ones_of(w.area).contains(p) {
                assert(w.area[p]);
                lemma_index_cell(p, mw, mh);
                let d = p % mw + (p / mw) * cw;
                lemma_cell_index(p % mw, p / mw, cw, ch);
                assert(to(d) == p);
                assert(c.cells[d]);
                assert(c.ones().contains(d));
            }
        }
        assert(c.ones().map(to) =~= ones_of(w.area));
        lemma_map_size(c.ones(), ones_of(w.area), to);
    }
}

/// A piece made for a board that is at least `level` cells wide and high
/// has exactly `level` set cells, and is at most `level` cells wide and
/// high, whatever was drawn on the way to it.
pub proof fn lemma_generated_piece(level: nat, bw: nat, bh: nat, dirs: Seq<u8>)
    requires
        valid_level(level as int),
        bw >= level,
        bh >= level,
        Walk::start(level, bw, bh).run(dirs).complete(),
    ensures
        Walk::start(level, bw, bh).run(dirs).crop().wf(),
        Walk::start(level, bw, bh).run(dirs).crop().count() == level,
        Walk::start(level, bw, bh).run(dirs).crop().width <= level,
        Walk::start(level, bw, bh).run(dirs).crop().height <= level,
{
    let begun = Walk::start(level, bw, bh);
    lemma_start_inv(level, bw, bh);
    lemma_run_inv(begun, dirs);
    lemma_run_level(begun, dirs);
    lemma_crop_count(begun.run(dirs));
}

/// No walk has marked more cells than it can reach.
pub proof fn lemma_count_within_reach(w: Walk)
    requires
        w.inv(),
    ensures
        w.count <= w.reach(),
{
    lemma_ones_finite(w.area);
    let mw = w.mw as int;
    let mh = w.mh as int;
    if mw == 0 || mh == 0 {
        assert(w.area.len() == 0) by (nonlinear_arith)
            requires
                w.area.len() == mw * mh,
                mw == 0 || mh == 0,
        ;
    } else if mh <= mw {
        let square = set_int_range(0, mh * mh);
        let to = |d: int| d % mh + (d / mh) * mw;
        assert(0 <= mh * mh) by (nonlinear_arith);
        lemma_int_range(0, mh * mh);
        lemma_map_size_bound(square, square.map(to), to);
        assert forall|p: int| ones_of(w.area).contains(p) implies square.map(to).contains(p) by {
            assert(w.area[p]);
            lemma_index_cell(p, mw, mh);
            let d = p % mw + (p / mw) * mh;
            lemma_cell_index(p % mw, p / mw, mh, mh);
            assert(square.contains(d) && p == to(d));
        }
        lemma_len_subset(ones_of(w.area), square.map(to));
    } else {
        let top = (w.tw + w.th * w.mw + 1) as int;
        assert(w.th * w.mw <= (w.mw - 1) * w.mw) by (nonlinear_arith)
            requires
                w.th <= w.mw - 1,
                0 <= w.mw,
        ;
        lemma_int_range(0, top);
        assert(ones_of(w.area).subset_of(set_int_range(0, top)));
        lemma_len_subset(ones_of(w.area), set_int_range(0, top));
    }
}

/// A walk whose level is beyond its reach never completes, whatever is
/// drawn.
pub proof fn lemma_never_complete(w: Walk, dirs: Seq<u8>)
    requires
        w.inv(),
        w.reach() < w.level,
    ensures
        !w.run(dirs).complete(),
{
    lemma_run_inv(w, dirs);
    lemma_run_level(w, dirs);
    lemma_count_within_reach(w.run(dirs));
}

/// The walk starts tied.
pub proof fn lemma_start_tied(level: nat, bw: nat, bh: nat)
    requires
        valid_level(level as int),
    ensures
        Walk::start(level, bw, bh).tied(),
{
    let w = Walk::start(level, bw, bh);
    if w.mw == w.mh && w.mw >= 1 {
        lemma_cell_index(0, 0, w.mw as int, w.mh as int);
        let s = w.area_shape();
        assert forall|p: int| 0 <= p < s.cells.len() && s.cells[p] implies #[trigger] linked(
            s,
            0,
            p,
        ) by {
            assert(p == 0);
            assert(is_path(s, seq![0int]));
        }
    }
}

/// Every step keeps the walk tied.
pub proof fn lemma_step_tied(w: Walk, dir: u8)
    requires
        w.inv(),
        w.tied(),
    ensures
        w.step(dir).tied(),
{
    if !w.complete() && w.mw == w.mh && w.mw >= 1 {
        match w.moved(dir) {
            Some(m) => {
                let n = m.marked();
                let mw = w.mw as int;
                let mh = w.mh as int;
                let from = w.cursor();
                let to = m.cursor();
                let s = w.area_shape();
                let t = n.area_shape();
                lemma_cell_index(w.tx as int, w.ty as int, mw, mh);
                lemma_cell_index(m.tx as int, m.ty as int, mw, mh);
                assert(adjacent(mw, from, to));
                assert forall|p: int| 0 <= p < t.cells.len() && t.cells[p] implies #[trigger] linked(
                    t,
                    0,
                    p,
                ) by {
                    if s.cells[p] {
                        assert(linked(s, 0, p));
                        let path = choose|path: Seq<int>| #[trigger]
                            is_path(s, path) && path[0] == 0 && path[path.len() - 1] == p;
                        lemma_path_stays(s, t, path);
                    } else {
                        assert(p == to);
                        assert(linked(s, 0, from));
                        let path = choose|path: Seq<int>| #[trigger]
                            is_path(s, path) && path[0] == 0 && path[path.len() - 1] == from;
                        lemma_path_stays(s, t, path);
                        let longer = path.push(to);
                        assert forall|i: int| 0 <= i < longer.len() - 1 implies adjacent(
                            t.width as int,
                            #[trigger] longer[i],
                            longer[i + 1],
                        ) by {
                            if i < path.len() - 1 {
                                assert(adjacent(t.width as int, path[i], path[i + 1]));
                            }
                        }
                        assert(is_path(t, longer));
                    }
                }
            },
            None => {},
        }
    }
}

/// Every run keeps the invariant and keeps the walk tied.
pub proof fn lemma_run_tied(w: Walk, dirs: Seq<u8>)
    requires
        w.inv(),
        w.tied(),
    ensures
        w.run(dirs).inv(),
        w.run(dirs).tied(),
    decreases dirs.len(),
{
    if dirs.len() > 0 {
        lemma_run_tied(w, dirs.drop_last());
        lemma_step_inv(w.run(dirs.drop_last()), dirs.last());
        lemma_step_tied(w.run(dirs.drop_last()), dirs.last());
    }
}

/// The piece drawn by a tied walk on a square work area is connected.
pub proof fn lemma_crop_connected(w: Walk)
    requires
        w.inv(),
        w.tied(),
        w.mw == w.mh,
    ensures
        connected(w.crop()),
{
    let c = w.crop();
    let cw = (w.tw + 1) as int;
    let ch = (w.th + 1) as int;
    let mw = w.mw as int;
    let mh = w.mh as int;
    if mw == 0 {
        assert forall|p: int, q: int|
            0 <= p < c.cells.len() && 0 <= q < c.cells.len() && c.cells[p] && c.cells[q]
            implies #[trigger] linked(c, p, q) by {
            assert(w.area.len() == 0);
        }
    } else {
        let s = w.area_shape();
        let to = |p: int| p % mw + (p / mw) * cw;
        assert forall|d: int| 0 <= d < c.cells.len() && c.cells[d] implies #[trigger] linked(
            c,
            0,
            d,
        ) by {
            lemma_index_cell(d, cw, ch);
            lemma_cell_index(d % cw, d / cw, mw, ch);
            let p = d % cw + (d / cw) * mw;
            assert(w.area[p]);
            assert(linked(s, 0, p));
            let path = choose|path: Seq<int>| #[trigger]
                is_path(s, path) && path[0] == 0 && path[path.len() - 1] == p;
            let moved = path.map_values(to);
            assert forall|i: int| 0 <= i < moved.len() implies {
                &&& 0 <= #[trigger] moved[i] < c.cells.len()
                &&& c.cells[moved[i]]
                &&& moved[i] % cw == path[i] % mw
                &&& moved[i] / cw == path[i] / mw
            } by {
                let e = path[i];
                assert(w.area[e]);
                lemma_index_cell(e, mw, mh);
                lemma_cell_index(e % mw, e / mw, cw, ch);
            }
            assert forall|i: int| 0 <= i < moved.len() - 1 implies adjacent(
                c.width as int,
                #[trigger] moved[i],
                moved[i + 1],
            ) by {
                assert(adjacent(mw, path[i], path[i + 1]));
                assert(moved[i + 1] % cw == path[i + 1] % mw);
            }
            assert(is_path(c, moved));
            lemma_cell_index(0, 0, mw, mh);
            assert(moved[0] == 0);
            assert(moved[moved.len() - 1] == d);
        }
        assert(rooted(c, 0));
        lemma_rooted_connected(c, 0);
    }
}

/// A piece made for a board that is at least `level` cells wide and high
/// is connected: from every set cell every other can be reached by steps
/// from a set cell to a set cell beside it.
pub proof fn lemma_generated_piece_connected(level: nat, bw: nat, bh: nat, dirs: Seq<u8>)
    requires
        valid_level(level as int),
        bw >= level,
        bh >= level,
    ensures
        connected(Walk::start(level, bw, bh).run(dirs).crop()),
{
    let begun = Walk::start(level, bw, bh);
    lemma_start_inv(level, bw, bh);
    lemma_start_tied(level, bw, bh);
    lemma_run_tied(begun, dirs);
    lemma_run_level(begun, dirs);
    lemma_crop_connected(begun.run(dirs));
}

} // verus!
