//! The walk in progress: the state that the caller steps with its draws.

use crate::bits::bits_of;
use crate::connect::connected;
use crate::error::Error;
use crate::grid::lemma_cell_index;
use crate::grid::lemma_rows;
use crate::shape::lemma_ones_none;
use crate::tetromino::Tetromino;
use crate::walk::DOWN;
use crate::walk::LEFT;
use crate::walk::lemma_crop_connected;
use crate::walk::lemma_crop_count;
use crate::walk::lemma_marked_inv;
use crate::walk::lemma_moved_inv;
use crate::walk::lemma_never_complete;
use crate::walk::lemma_start_inv;
use crate::walk::lemma_start_tied;
use crate::walk::lemma_step_tied;
use crate::walk::MAX;
use crate::walk::MIN;
use crate::walk::RIGHT;
use crate::walk::UP;
use crate::walk::valid_level;
use crate::walk::Walk;
use fixedbitset::FixedBitSet;
use vstd::prelude::*;

verus! {

/// A walk in progress: the work area with the cells marked so far, the
/// cursor, and the furthest column and row that the cursor has reached.
#[derive(Debug)]
pub struct ShapeWalk {
    lvl: u8,
    mw: u8,
    mh: u8,
    area: FixedBitSet,
    count: u8,
    tx: u8,
    ty: u8,
    tw: u8,
    th: u8,
}

impl View for ShapeWalk {
    type V = Walk;

    closed spec fn view(&self) -> Walk {
        Walk {
            level: self.lvl as nat,
            mw: self.mw as nat,
            mh: self.mh as nat,
            area: bits_of(self.area),
            count: self.count as nat,
            tx: self.tx as nat,
            ty: self.ty as nat,
            tw: self.tw as nat,
            th: self.th as nat,
        }
    }
}

impl ShapeWalk {
    /// The walk is one that `start` and `step` can reach.
    pub open spec fn wf(&self) -> bool {
        self@.inv() && self@.tied()
    }

    /// Begins the walk for a piece of `lvl` cells on a board `board_width`
    /// wide and `board_height` high, or fails with `InvalidLevel` where
    /// `lvl` is not one of 1 to 8.
    pub fn start(lvl: u8, board_width: u8, board_height: u8) -> (res: Result<ShapeWalk, Error>)
        ensures
            res is Ok <==> valid_level(lvl as int),
            res matches Ok(walk) ==> walk.wf() && walk@ == Walk::start(
                lvl as nat,
                board_width as nat,
                board_height as nat,
            ),
            res matches Err(e) ==> e == Error::InvalidLevel,
    {
        if lvl < MIN || lvl > MAX {
            return Err(Error::InvalidLevel);
        }
        let mw: u8 = if lvl > board_width {
            board_width
        } else {
            lvl
        };
        let mh: u8 = if lvl > board_height {
            board_height
        } else {
            lvl
        };
        assert(mw * mh <= 64) by (nonlinear_arith)
            requires
                mw <= 8,
                mh <= 8,
        ;
        let area = FixedBitSet::with_capacity((mw as usize) * (mh as usize));
        let mut walk = ShapeWalk { lvl, mw, mh, area, count: 0, tx: 0, ty: 0, tw: 0, th: 0 };
        proof {
            lemma_ones_none(walk@.area);
            lemma_start_inv(lvl as nat, board_width as nat, board_height as nat);
            lemma_start_tied(lvl as nat, board_width as nat, board_height as nat);
        }
        walk.mark();
        Ok(walk)
    }

    /// Marks the cursor's cell, unless it is marked already or lies outside
    /// the work area.
    fn mark(&mut self)
        requires
            old(self)@.inv(),
            old(self)@.count < old(self)@.level,
        ensures
            final(self)@ == old(self)@.marked(),
            final(self)@.inv(),
    {
        proof {
            lemma_marked_inv(self@);
            assert(self.ty * self.mw <= 64) by (nonlinear_arith)
                requires
                    self.ty <= 8,
                    self.mw <= 8,
            ;
        }
        let pos: usize = self.tx as usize + (self.ty as usize) * (self.mw as usize);
        if pos < self.area.len() && !self.area.contains(pos) {
            self.area.set(pos, true);
            self.count += 1;
        }
    }

    /// Whether the level is within the reach of the walk. Where it is not,
    /// the walk never completes, whatever is drawn.
    pub fn can_complete(&self) -> (can: bool)
        requires
            self.wf(),
        ensures
            can == (self@.reach() >= self@.level),
            !can ==> forall|dirs: Seq<u8>| !(#[trigger] self@.run(dirs)).complete(),
    {
        proof {
            if self@.reach() < self@.level {
                assert forall|dirs: Seq<u8>| !(#[trigger] self@.run(dirs)).complete() by {
                    lemma_never_complete(self@, dirs);
                }
            }
        }
        let mw: usize = self.mw as usize;
        let mh: usize = self.mh as usize;
        assert(mh * mh <= 64 && (mw >= 1 ==> (mw - 1) * mw <= 56)) by (nonlinear_arith)
            requires
                mw <= 8,
                mh <= 8,
        ;
        let reach: usize = if mh <= mw {
            mh * mh
        } else if mw == 0 {
            0
        } else {
            mh + (mw - 1) * mw
        };
        reach >= self.lvl as usize
    }

    /// Whether the walk has marked as many cells as its level asks for.
    pub fn is_complete(&self) -> (done: bool)
        ensures
            done == self@.complete(),
    {
        self.count >= self.lvl
    }

    /// Takes one draw. A complete walk takes none, and a refused move
    /// changes nothing: the result is then `false`. Otherwise the cursor
    /// moves one cell in direction `dir`, its new cell is marked, and the
    /// result is `true`.
    pub fn step(&mut self, dir: u8) -> (accepted: bool)
        requires
            old(self).wf(),
        ensures
            final(self).wf(),
            final(self)@ == old(self)@.step(dir),
            accepted == (!old(self)@.complete() && old(self)@.moved(dir) is Some),
    {
        if self.count >= self.lvl {
            return false;
        }
        if dir == UP {
            if self.ty == 0 {
                return false;
            }
            self.ty -= 1;
        } else if dir == DOWN {
            if self.ty + 1 >= self.mw {
                return false;
            }
            self.ty += 1;
            if self.ty > self.th {
                self.th = self.ty;
            }
        } else if dir == LEFT {
            if self.tx == 0 {
                return false;
            }
            self.tx -= 1;
        } else if dir == RIGHT {
            if self.tx + 1 >= self.mh {
                return false;
            }
            self.tx += 1;
            if self.tx > self.tw {
                self.tw = self.tx;
            }
        } else {
            return false;
        }
        assert(self@ == old(self)@.moved(dir)->Some_0);
        proof {
            lemma_moved_inv(old(self)@, dir);
        }
        self.mark();
        proof {
            lemma_step_tied(old(self)@, dir);
        }
        true
    }

    /// The piece that the walk has drawn: the work area cut down to the
    /// columns and rows that the cursor has reached.
    ///
    /// On a work area that is at least as wide as it is high the piece has
    /// as many set cells as the walk has marked, and on one that is exactly
    /// as wide as it is high the piece is connected.
    pub fn into_shape(self) -> (piece: Tetromino)
        requires
            self.wf(),
        ensures
            piece.wf(),
            piece@ == self@.crop(),
            piece.level() == self@.level,
            self@.mh <= self@.mw ==> piece@.count() == self@.count,
            self@.mw == self@.mh ==> connected(piece@),
    {
        proof {
            if self@.mh <= self@.mw {
                lemma_crop_count(self@);
            }
            if self@.mw == self@.mh {
                lemma_crop_connected(self@);
            }
        }
        let w: usize = self.tw as usize + 1;
        let h: usize = self.th as usize + 1;
        let mw: usize = self.mw as usize;
        let ghost goal = self@.crop();
        assert(w * h <= 64) by (nonlinear_arith)
            requires
                w <= 8,
                h <= 8,
        ;
        let mut shape = FixedBitSet::with_capacity(w * h);
        let mut j: usize = 0;
        while j < h
            invariant
                self.wf(),
                goal == self@.crop(),
                w == self.tw + 1,
                h == self.th + 1,
                mw == self.mw,
                w * h <= 64,
                j <= h,
                bits_of(shape).len() == w * h,
                forall|d: int| 0 <= d < j * w ==> bits_of(shape)[d] == goal.cells[d],
            decreases h - j,
        {
            let mut i: usize = 0;
            while i < w
                invariant
                    self.wf(),
                    goal == self@.crop(),
                    w == self.tw + 1,
                    h == self.th + 1,
                    mw == self.mw,
                    w * h <= 64,
                    j < h,
                    i <= w,
                    bits_of(shape).len() == w * h,
                    forall|d: int| 0 <= d < i + j * w ==> bits_of(shape)[d] == goal.cells[d],
                decreases w - i,
            {
                proof {
                    lemma_cell_index(i as int, j as int, w as int, h as int);
                    assert(j * mw <= 64) by (nonlinear_arith)
                        requires
                            j <= 8,
                            mw <= 8,
                    ;
                }
                let pos: usize = i + j * w;
                let apos: usize = i + j * mw;
                let on = apos < self.area.len() && self.area.contains(apos);
                shape.set(pos, on);
                i += 1;
            }
            assert((j + 1) * w == w + j * w) by (nonlinear_arith);
            j += 1;
        }
        proof {
            assert(h * w == w * h) by (nonlinear_arith);
            assert(bits_of(shape) =~= goal.cells);
            lemma_rows(w as int, h as int);
        }
        Tetromino::from_bits(self.lvl, shape, w as u8)
    }
}

} // verus!
