//! Connectedness of a piece: its set cells hang together side by side.

use crate::shape::Shape;
use vstd::prelude::*;

verus! {

/// The cells at `p` and `q` of a grid `w` wide share a side: they lie in
/// one row in columns next to each other, or in one column in rows next to
/// each other.
pub open spec fn adjacent(w: int, p: int, q: int) -> bool {
    ||| p / w == q / w && (p % w == q % w + 1 || q % w == p % w + 1)
    ||| p % w == q % w && (p / w == q / w + 1 || q / w == p / w + 1)
}

/// `path` steps from one set cell of `s` to the next, each sharing a side
/// with the one before.
pub open spec fn is_path(s: Shape, path: Seq<int>) -> bool {
    &&& path.len() >= 1
    &&& forall|i: int|
        0 <= i < path.len() ==> 0 <= #[trigger] path[i] < s.cells.len() && s.cells[path[i]]
    &&& forall|i: int|
        0 <= i < path.len() - 1 ==> adjacent(s.width as int, #[trigger] path[i], path[i + 1])
}

/// A path of set cells leads from `p` to `q`.
pub open spec fn linked(s: Shape, p: int, q: int) -> bool {
    exists|path: Seq<int>| #[trigger] is_path(s, path) && path[0] == p && path[path.len() - 1] == q
}

/// Every set cell is linked with every other.
pub open spec fn connected(s: Shape) -> bool {
    forall|p: int, q: int|
        0 <= p < s.cells.len() && 0 <= q < s.cells.len() && s.cells[p] && s.cells[q]
            ==> #[trigger] linked(s, p, q)
}

/// Every set cell is linked with the cell at `root`.
pub open spec fn rooted(s: Shape, root: int) -> bool {
    forall|p: int| 0 <= p < s.cells.len() && s.cells[p] ==> #[trigger] linked(s, root, p)
}

/// A path walked backwards is a path.
pub proof fn lemma_linked_back(s: Shape, p: int, q: int)
    requires
        linked(s, p, q),
    ensures
        linked(s, q, p),
{
    let path = choose|path: Seq<int>| #[trigger]
        is_path(s, path) && path[0] == p && path[path.len() - 1] == q;
    let n = path.len() as int;
    let back = Seq::new(path.len(), |i: int| path[n - 1 - i]);
    assert forall|i: int| 0 <= i < back.len() - 1 implies adjacent(
        s.width as int,
        #[trigger] back[i],
        back[i + 1],
    ) by {
        assert(adjacent(s.width as int, path[n - 2 - i], path[n - 2 - i + 1]));
    }
    assert(is_path(s, back));
}

/// Two paths that meet make one path.
pub proof fn lemma_linked_on(s: Shape, p: int, q: int, r: int)
    requires
        linked(s, p, q),
        linked(s, q, r),
    ensures
        linked(s, p, r),
{
    let a = choose|path: Seq<int>| #[trigger]
        is_path(s, path) && path[0] == p && path[path.len() - 1] == q;
    let b = choose|path: Seq<int>| #[trigger]
        is_path(s, path) && path[0] == q && path[path.len() - 1] == r;
    let n = a.len() as int;
    let both = Seq::new((a.len() + b.len() - 1) as nat, |i: int| if i < n {
        a[i]
    } else {
        b[i - n + 1]
    });
    assert forall|i: int| 0 <= i < both.len() implies 0 <= #[trigger] both[i] < s.cells.len()
        && s.cells[both[i]] by {
        if i < n {
            assert(s.cells[a[i]]);
        } else {
            assert(s.cells[b[i - n + 1]]);
        }
    }
    assert forall|i: int| 0 <= i < both.len() - 1 implies adjacent(
        s.width as int,
        #[trigger] both[i],
        both[i + 1],
    ) by {
        if i < n - 1 {
            assert(adjacent(s.width as int, a[i], a[i + 1]));
        } else {
            assert(adjacent(s.width as int, b[i - n + 1], b[i - n + 1 + 1]));
        }
    }
    assert(is_path(s, both));
}

/// A piece whose set cells are all linked with one cell is connected.
pub proof fn lemma_rooted_connected(s: Shape, root: int)
    requires
        rooted(s, root),
    ensures
        connected(s),
{
    assert forall|p: int, q: int|
        0 <= p < s.cells.len() && 0 <= q < s.cells.len() && s.cells[p] && s.cells[q]
        implies #[trigger] linked(s, p, q) by {
        assert(linked(s, root, p));
        assert(linked(s, root, q));
        lemma_linked_back(s, root, p);
        lemma_linked_on(s, p, root, q);
    }
}

/// A path stays a path when more cells are set.
pub proof fn lemma_path_stays(s: Shape, t: Shape, path: Seq<int>)
    requires
        is_path(s, path),
        s.width == t.width,
        s.cells.len() == t.cells.len(),
        forall|p: int| 0 <= p < s.cells.len() && s.cells[p] ==> t.cells[p],
    ensures
        is_path(t, path),
{
    assert forall|i: int| 0 <= i < path.len() implies 0 <= #[trigger] path[i] < t.cells.len()
        && t.cells[path[i]] by {
        assert(s.cells[path[i]]);
    }
    assert forall|i: int| 0 <= i < path.len() - 1 implies adjacent(
        t.width as int,
        #[trigger] path[i],
        path[i + 1],
    ) by {
        assert(adjacent(s.width as int, path[i], path[i + 1]));
    }
}

} // verus!
