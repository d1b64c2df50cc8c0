//! The mathematical model of a piece: a rectangle of cells, each set or not.

use crate::grid::lemma_cell_index;
use crate::grid::lemma_index_cell;
use vstd::prelude::*;
use vstd::set_lib::lemma_int_range;
use vstd::set_lib::lemma_len_subset;
use vstd::set_lib::lemma_map_size;
use vstd::set_lib::set_int_range;

verus! {

/// The indices at which `cells` is set.
pub open spec fn ones_of(cells: Seq<bool>) -> Set<int> {
    Set::new(|p: int| 0 <= p < cells.len() && cells[p])
}

/// A bitmap as a value of the logic. Cell `(x, y)` is `cells[x + y * width]`.
pub ghost struct Shape {
    pub width: nat,
    pub height: nat,
    pub cells: Seq<bool>,
}

impl Shape {
    /// At least one cell each way, and exactly `width * height` cells.
    pub open spec fn wf(self) -> bool {
        &&& self.width >= 1
        &&& self.height >= 1
        &&& self.cells.len() == self.width * self.height
    }

    /// Whether cell `(x, y)` is set.
    pub open spec fn at(self, x: int, y: int) -> bool {
        self.cells[x + y * self.width]
    }

    /// The indices of the set cells.
    pub open spec fn ones(self) -> Set<int> {
        ones_of(self.cells)
    }

    /// The number of set cells.
    pub open spec fn count(self) -> nat {
        self.ones().len()
    }

    /// The shape turned by 90 degrees: width and height swap, and the cell
    /// that was at `(x, y)` comes to lie at `(y, width - 1 - x)`.
    pub open spec fn quarter_turn(self) -> Shape {
        Shape {
            width: self.height,
            height: self.width,
            cells: Seq::new(
                self.cells.len(),
                |d: int| self.at(self.width - 1 - d / (self.height as int), d % (self.height as int)),
            ),
        }
    }

    /// The shape after `k` quarter turns.
    pub open spec fn turned(self, k: nat) -> Shape
        decreases k,
    {
        if k == 0 {
            self
        } else {
            self.turned((k - 1) as nat).quarter_turn()
        }
    }
}

/// The set cells of a bitmap are finitely many, no more than it has cells.
pub proof fn lemma_ones_finite(cells: Seq<bool>)
    ensures
        ones_of(cells).finite(),
        ones_of(cells).len() <= cells.len(),
{
    let all = set_int_range(0, cells.len() as int);
    lemma_int_range(0, cells.len() as int);
    assert(ones_of(cells).subset_of(all));
    lemma_len_subset(ones_of(cells), all);
}

/// Setting a cell that was not set adds one to the number of set cells.
pub proof fn lemma_ones_set(cells: Seq<bool>, p: int)
    requires
        0 <= p < cells.len(),
        !cells[p],
    ensures
        ones_of(cells.update(p, true)) == ones_of(cells).insert(p),
        ones_of(cells.update(p, true)).len() == ones_of(cells).len() + 1,
{
    lemma_ones_finite(cells);
    assert(ones_of(cells.update(p, true)) =~= ones_of(cells).insert(p));
}

/// A bitmap without a set cell has none to count.
pub proof fn lemma_ones_none(cells: Seq<bool>)
    requires
        forall|p: int| 0 <= p < cells.len() ==> !cells[p],
    ensures
        ones_of(cells).len() == 0,
{
    assert(ones_of(cells) =~= Set::<int>::empty());
}

/// A quarter turn keeps a shape well formed, and reads cell `(c, r)` of the
/// result from cell `(width - 1 - r, c)` of the shape before the turn.
pub proof fn lemma_quarter_turn(s: Shape)
    requires
        s.wf(),
    ensures
        s.quarter_turn().wf(),
        s.quarter_turn().width == s.height,
        s.quarter_turn().height == s.width,
        forall|c: int, r: int|
            0 <= c < s.height && 0 <= r < s.width ==> #[trigger] s.quarter_turn().at(c, r) == s.at(
                s.width - 1 - r,
                c,
            ),
{
    let t = s.quarter_turn();
    let w = s.width as int;
    let h = s.height as int;
    assert(w * h == h * w) by (nonlinear_arith);
    assert forall|c: int, r: int| 0 <= c < h && 0 <= r < w implies #[trigger] t.at(c, r) == s.at(
        w - 1 - r,
        c,
    ) by {
        lemma_cell_index(c, r, h, w);
    }
}

/// A quarter turn moves the set cells one to one: the piece has as many
/// set cells after it as before.
pub proof fn lemma_quarter_turn_count(s: Shape)
    requires
        s.wf(),
    ensures
        s.quarter_turn().count() == s.count(),
{
    let t = s.quarter_turn();
    let w = s.width as int;
    let h = s.height as int;
    let from = |d: int| (w - 1 - d / h) + (d % h) * w;
    assert(w * h == h * w) by (nonlinear_arith);
    lemma_ones_finite(t.cells);
    assert forall|d1: int, d2: int|
        t.ones().contains(d1) && t.ones().contains(d2) && #[trigger] from(d1) == #[trigger] from(
            d2,
        ) implies d1 == d2 by {
        lemma_index_cell(d1, h, w);
        lemma_index_cell(d2, h, w);
        lemma_cell_index(w - 1 - d1 / h, d1 % h, w, h);
        lemma_cell_index(w - 1 - d2 / h, d2 % h, w, h);
    }
    assert forall|p: int| t.ones().map(from).contains(p) <==> s.ones().contains(p) by {
        if t.ones().map(from).contains(p) {
            let d = choose|d: int| t.ones().contains(d) && p == from(d);
            lemma_index_cell(d, h, w);
            lemma_cell_index(w - 1 - d / h, d % h, w, h);
        }
        if s.ones().contains(p) {
            lemma_index_cell(p, w, h);
            let d = p / w + (w - 1 - p % w) * h;
            lemma_cell_index(p / w, w - 1 - p % w, h, w);
            assert(from(d) == p);
            assert(t.ones().contains(d));
        }
    }
    assert(t.ones().map(from) =~= s.ones());
    lemma_map_size(t.ones(), s.ones(), from);
}

/// Quarter turns keep the number of set cells.
pub proof fn lemma_turned_count(s: Shape, k: nat)
    requires
        s.wf(),
    ensures
        s.turned(k).count() == s.count(),
    decreases k,
{
    if k > 0 {
        lemma_turned_count(s, (k - 1) as nat);
        lemma_turned_wf(s, (k - 1) as nat);
        lemma_quarter_turn_count(s.turned((k - 1) as nat));
    }
}

/// A shape that counts a set cell has one at some column and row.
pub proof fn lemma_counted_cell(s: Shape) -> (at: (int, int))
    requires
        s.wf(),
        s.count() >= 1,
    ensures
        0 <= at.0 < s.width,
        0 <= at.1 < s.height,
        s.at(at.0, at.1),
{
    if forall|p: int| 0 <= p < s.cells.len() ==> !s.cells[p] {
        lemma_ones_none(s.cells);
    }
    let p = choose|p: int| 0 <= p < s.cells.len() && s.cells[p];
    lemma_index_cell(p, s.width as int, s.height as int);
    (p % (s.width as int), p / (s.width as int))
}

/// Two well-formed shapes of the same size that agree cell by cell are equal.
pub proof fn lemma_shape_ext(a: Shape, b: Shape)
    requires
        a.wf(),
        b.wf(),
        a.width == b.width,
        a.height == b.height,
        forall|x: int, y: int| 0 <= x < a.width && 0 <= y < a.height ==> a.at(x, y) == b.at(x, y),
    ensures
        a == b,
{
    let w = a.width as int;
    let h = a.height as int;
    assert forall|d: int| 0 <= d < a.cells.len() implies a.cells[d] == b.cells[d] by {
        lemma_index_cell(d, w, h);
        assert(a.at(d % w, d / w) == b.at(d % w, d / w));
    }
    assert(a.cells =~= b.cells);
}

/// Two quarter turns are a half turn: cell `(x, y)` comes from the cell
/// opposite to it.
pub proof fn lemma_half_turn(s: Shape)
    requires
        s.wf(),
    ensures
        s.turned(2).wf(),
        s.turned(2).width == s.width,
        s.turned(2).height == s.height,
        forall|x: int, y: int|
            0 <= x < s.width && 0 <= y < s.height ==> #[trigger] s.turned(2).at(x, y) == s.at(
                s.width - 1 - x,
                s.height - 1 - y,
            ),
{
    reveal_with_fuel(Shape::turned, 3);
    let s1 = s.quarter_turn();
    lemma_quarter_turn(s);
    lemma_quarter_turn(s1);
    assert(s.turned(2) == s1.quarter_turn());
    let s2 = s.turned(2);
    assert forall|x: int, y: int| 0 <= x < s.width && 0 <= y < s.height implies #[trigger] s2.at(
        x,
        y,
    ) == s.at(s.width - 1 - x, s.height - 1 - y) by {
        assert(s2.at(x, y) == s1.at(s.height - 1 - y, x));
        assert(s1.at(s.height - 1 - y, x) == s.at(s.width - 1 - x, s.height - 1 - y));
    }
}

/// Turns add up.
pub proof fn lemma_turned_add(s: Shape, j: nat, k: nat)
    ensures
        s.turned(j).turned(k) == s.turned(j + k),
    decreases k,
{
    if k > 0 {
        lemma_turned_add(s, j, (k - 1) as nat);
    }
}

/// Any number of quarter turns keeps a shape well formed.
pub proof fn lemma_turned_wf(s: Shape, k: nat)
    requires
        s.wf(),
    ensures
        s.turned(k).wf(),
        s.turned(k).cells.len() == s.cells.len(),
        s.width <= 255 && s.height <= 255 ==> s.turned(k).width <= 255 && s.turned(k).height <= 255,
    decreases k,
{
    if k > 0 {
        lemma_turned_wf(s, (k - 1) as nat);
        lemma_quarter_turn(s.turned((k - 1) as nat));
    }
}

/// Four quarter turns bring every shape back to itself: the same width, the
/// same height and the same cells.
pub proof fn lemma_four_quarter_turns(s: Shape)
    requires
        s.wf(),
    ensures
        s.turned(4) == s,
{
    let h = s.turned(2);
    lemma_half_turn(s);
    lemma_half_turn(h);
    lemma_turned_add(s, 2, 2);
    let f = s.turned(4);
    assert forall|x: int, y: int| 0 <= x < s.width && 0 <= y < s.height implies f.at(x, y) == s.at(
        x,
        y,
    ) by {
        assert(f.at(x, y) == h.at(s.width - 1 - x, s.height - 1 - y));
    }
    lemma_shape_ext(f, s);
}

} // verus!
