//! Passages between the cells of a grid, and the paths they make.
//!
//! A wall between two neighbouring cells is recorded once: on the left cell of
//! the pair as its right wall, on the upper cell as its bottom wall. Two
//! neighbours are linked by a passage where that wall is absent. Left and top
//! walls belong to the outer boundary and never stand between two cells.

use crate::cell::Container;
use vstd::prelude::*;

verus! {

/// The position `(row, column)` lies inside the grid.
pub open spec fn in_grid(grid: Seq<Seq<Container>>, at: (int, int)) -> bool {
    0 <= at.0 < grid.len() && 0 <= at.1 < grid[at.0].len()
}

/// The cell at `at` has a right neighbour and no wall towards it.
pub open spec fn opens_right(grid: Seq<Seq<Container>>, at: (int, int)) -> bool {
    in_grid(grid, at) && in_grid(grid, (at.0, at.1 + 1)) && !grid[at.0][at.1].right_wall
}

/// The cell at `at` has a neighbour below and no wall towards it.
pub open spec fn opens_down(grid: Seq<Seq<Container>>, at: (int, int)) -> bool {
    in_grid(grid, at) && in_grid(grid, (at.0 + 1, at.1)) && !grid[at.0][at.1].bottom_wall
}

/// `a` and `b` are neighbours with no wall between them.
pub open spec fn passage(grid: Seq<Seq<Container>>, a: (int, int), b: (int, int)) -> bool {
    ||| opens_right(grid, a) && b == (a.0, a.1 + 1)
    ||| opens_right(grid, b) && a == (b.0, b.1 + 1)
    ||| opens_down(grid, a) && b == (a.0 + 1, a.1)
    ||| opens_down(grid, b) && a == (b.0 + 1, b.1)
}

/// Step `i` of the path goes through a passage.
pub open spec fn step_open(grid: Seq<Seq<Container>>, path: Seq<(int, int)>, i: int) -> bool {
    passage(grid, path[i], path[i + 1])
}

/// The path starts inside the grid and moves through passages only.
pub open spec fn is_path(grid: Seq<Seq<Container>>, path: Seq<(int, int)>) -> bool {
    &&& path.len() >= 1
    &&& in_grid(grid, path[0])
    &&& forall|i: int| 0 <= i < path.len() - 1 ==> #[trigger] step_open(grid, path, i)
}

/// The path leads from `a` to `b`.
pub open spec fn leads(grid: Seq<Seq<Container>>, path: Seq<(int, int)>, a: (int, int), b: (
    int,
    int,
)) -> bool {
    is_path(grid, path) && path[0] == a && path[path.len() - 1] == b
}

/// Some path leads from `a` to `b`.
pub open spec fn joined(grid: Seq<Seq<Container>>, a: (int, int), b: (int, int)) -> bool {
    exists|path: Seq<(int, int)>| #[trigger] leads(grid, path, a, b)
}

/// Every cell of the grid can be reached from every other.
pub open spec fn connected(grid: Seq<Seq<Container>>) -> bool {
    forall|a: (int, int), b: (int, int)|
        in_grid(grid, a) && in_grid(grid, b) ==> #[trigger] joined(grid, a, b)
}

/// Every passage of the first grid is a passage of the second, and so is
/// every cell.
pub open spec fn passages_kept(from: Seq<Seq<Container>>, to: Seq<Seq<Container>>) -> bool {
    &&& forall|a: (int, int)| #[trigger] in_grid(from, a) ==> in_grid(to, a)
    &&& forall|a: (int, int), b: (int, int)| #[trigger] passage(from, a, b) ==> passage(to, a, b)
}

/// A cell is joined to itself.
pub proof fn lemma_joined_self(grid: Seq<Seq<Container>>, a: (int, int))
    requires
        in_grid(grid, a),
    ensures
        joined(grid, a, a),
{
    assert(leads(grid, seq![a], a, a));
}

/// Two cells linked by a passage are joined.
pub proof fn lemma_joined_step(grid: Seq<Seq<Container>>, a: (int, int), b: (int, int))
    requires
        passage(grid, a, b),
    ensures
        joined(grid, a, b),
{
    let path = seq![a, b];
    assert(step_open(grid, path, 0));
    assert(leads(grid, path, a, b));
}

/// Paths end inside the grid.
pub proof fn lemma_joined_inside(grid: Seq<Seq<Container>>, a: (int, int), b: (int, int))
    requires
        joined(grid, a, b),
    ensures
        in_grid(grid, a),
        in_grid(grid, b),
{
    let path = choose|path: Seq<(int, int)>| #[trigger] leads(grid, path, a, b);
    if path.len() > 1 {
        assert(step_open(grid, path, path.len() - 2));
    }
}

/// A path walked backwards is a path.
pub proof fn lemma_joined_back(grid: Seq<Seq<Container>>, a: (int, int), b: (int, int))
    requires
        joined(grid, a, b),
    ensures
        joined(grid, b, a),
{
    let path = choose|path: Seq<(int, int)>| #[trigger] leads(grid, path, a, b);
    let back = Seq::new(path.len(), |i: int| path[path.len() - 1 - i]);
    lemma_joined_inside(grid, a, b);
    assert forall|i: int| 0 <= i < back.len() - 1 implies #[trigger] step_open(grid, back, i) by {
        assert(step_open(grid, path, path.len() - 2 - i));
    }
    assert(leads(grid, back, b, a));
}

/// Two paths that meet make one path.
pub proof fn lemma_joined_through(
    grid: Seq<Seq<Container>>,
    a: (int, int),
    b: (int, int),
    c: (int, int),
)
    requires
        joined(grid, a, b),
        joined(grid, b, c),
    ensures
        joined(grid, a, c),
{
    let first = choose|path: Seq<(int, int)>| #[trigger] leads(grid, path, a, b);
    let second = choose|path: Seq<(int, int)>| #[trigger] leads(grid, path, b, c);
    let whole = first + second.subrange(1, second.len() as int);
    assert forall|i: int| 0 <= i < whole.len() - 1 implies #[trigger] step_open(grid, whole, i) by {
        if i < first.len() - 1 {
            assert(step_open(grid, first, i));
        } else {
            assert(step_open(grid, second, i - (first.len() - 1)));
        }
    }
    assert(leads(grid, whole, a, c));
}

/// A path stays a path when passages are added.
pub proof fn lemma_joined_kept(
    from: Seq<Seq<Container>>,
    to: Seq<Seq<Container>>,
    a: (int, int),
    b: (int, int),
)
    requires
        passages_kept(from, to),
        joined(from, a, b),
    ensures
        joined(to, a, b),
{
    let path = choose|path: Seq<(int, int)>| #[trigger] leads(from, path, a, b);
    assert forall|i: int| 0 <= i < path.len() - 1 implies #[trigger] step_open(to, path, i) by {
        assert(step_open(from, path, i));
    }
    assert(leads(to, path, a, b));
}

} // verus!
