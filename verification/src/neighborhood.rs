//! The positions around a pixel, as a list and as a sum.

use vstd::prelude::*;
use crate::grid::{adjacent, Grid, Tally};
use crate::pixel::Rgba;

verus! {

/// A pixel beside another, with its column and its row.
pub type Neighbor = (Rgba, u32, u32);

/// The place of column `u` of row `v` among the nine positions of the block
/// around column `x` of row `y`, counted column by column from the left,
/// each column from the top: 0 to 8, and 4 for the middle.
pub open spec fn rank(x: int, y: int, u: int, v: int) -> int {
    (u - x + 1) * 3 + (v - y + 1)
}

/// What the opaque pixels of a list add up to.
pub open spec fn tally_of(neighbors: Seq<Neighbor>) -> Tally
    decreases neighbors.len(),
{
    if neighbors.len() == 0 {
        Tally::zero()
    } else {
        tally_of(neighbors.drop_last()).plus(Tally::of(neighbors.last().0))
    }
}

impl Grid {
    /// The pixels beside column `x` of row `y` among the first `k` positions
    /// of the block around it, in the order of their `rank`. The middle of
    /// the block, which has rank 4, and what lies outside the image are left
    /// out.
    pub open spec fn gathered(self, x: int, y: int, k: nat) -> Seq<Neighbor>
        decreases k,
    {
        if k == 0 {
            Seq::empty()
        } else {
            let last = k - 1;
            let before = self.gathered(x, y, last as nat);
            let u = x + last / 3 - 1;
            let v = y + last % 3 - 1;
            if last != 4 && self.contains(u, v) {
                before.push((self.at(u, v), u as u32, v as u32))
            } else {
                before
            }
        }
    }

    /// The pixels beside column `x` of row `y`: each position that is
    /// adjacent to it and inside the image, once.
    pub open spec fn neighbors(self, x: int, y: int) -> Seq<Neighbor> {
        self.gathered(x, y, 9)
    }

    /// The tally of the first `k` positions of the block around column `x`
    /// of row `y`.
    pub open spec fn tallied(self, x: int, y: int, k: nat) -> Tally
        decreases k,
    {
        if k == 0 {
            Tally::zero()
        } else {
            let last = k - 1;
            let before = self.tallied(x, y, last as nat);
            if last != 4 {
                before.plus(self.share(x + last / 3 - 1, y + last % 3 - 1))
            } else {
                before
            }
        }
    }
}

/// What is gathered lies inside the image, beside the pixel, in rising
/// rank, and is the pixel of its position.
pub proof fn lemma_gathered_sound(grid: Grid, x: int, y: int, k: nat)
    requires
        grid.sized(),
        k <= 9,
    ensures
        grid.gathered(x, y, k).len() <= if k < 5 {
            k
        } else {
            (k - 1) as nat
        },
        forall|i: int|
            0 <= i < grid.gathered(x, y, k).len() ==> {
                let e = #[trigger] grid.gathered(x, y, k)[i];
                &&& grid.contains(e.1 as int, e.2 as int)
                &&& adjacent(x, y, e.1 as int, e.2 as int)
                &&& e.0 == grid.at(e.1 as int, e.2 as int)
                &&& rank(x, y, e.1 as int, e.2 as int) < k
            },
        forall|i: int, j: int|
            0 <= i < j < grid.gathered(x, y, k).len() ==> rank(
                x,
                y,
                (#[trigger] grid.gathered(x, y, k)[i]).1 as int,
                grid.gathered(x, y, k)[i].2 as int,
            ) < rank(
                x,
                y,
                (#[trigger] grid.gathered(x, y, k)[j]).1 as int,
                grid.gathered(x, y, k)[j].2 as int,
            ),
    decreases k,
{
    if k > 0 {
        lemma_gathered_sound(grid, x, y, (k - 1) as nat);
    }
}

/// Every position beside the pixel and inside the image is gathered once
/// its rank is reached.
pub proof fn lemma_gathered_complete(grid: Grid, x: int, y: int, k: nat, u: int, v: int)
    requires
        grid.sized(),
        k <= 9,
        adjacent(x, y, u, v),
        grid.contains(u, v),
        rank(x, y, u, v) < k,
    ensures
        exists|i: int|
            0 <= i < grid.gathered(x, y, k).len() && #[trigger] grid.gathered(x, y, k)[i] == (
                grid.at(u, v),
                u as u32,
                v as u32,
            ),
    decreases k,
{
    let now = grid.gathered(x, y, k);
    if rank(x, y, u, v) < k - 1 {
        lemma_gathered_complete(grid, x, y, (k - 1) as nat, u, v);
        let before = grid.gathered(x, y, (k - 1) as nat);
        let i = choose|i: int|
            0 <= i < before.len() && #[trigger] before[i] == (grid.at(u, v), u as u32, v as u32);
        assert(now[i] == before[i]);
    } else {
        assert(u == x + (k - 1) / 3 - 1);
        assert(v == y + (k - 1) % 3 - 1);
        assert(now[now.len() - 1] == (grid.at(u, v), u as u32, v as u32));
    }
}

/// The tally of a list grows by what each further pixel adds.
pub proof fn lemma_tally_push(neighbors: Seq<Neighbor>, next: Neighbor)
    ensures
        tally_of(neighbors.push(next)) == tally_of(neighbors).plus(Tally::of(next.0)),
{
    assert(neighbors.push(next).drop_last() =~= neighbors);
}

/// A tally counts no more pixels than the list has, and each sum is at most
/// 255 for each pixel counted.
pub proof fn lemma_tally_bounded(neighbors: Seq<Neighbor>)
    ensures
        tally_of(neighbors).count <= neighbors.len(),
        tally_of(neighbors).bounded(),
    decreases neighbors.len(),
{
    if neighbors.len() > 0 {
        lemma_tally_bounded(neighbors.drop_last());
    }
}

/// The pixels gathered add up to the tally of the positions passed.
pub proof fn lemma_tally_gathered(grid: Grid, x: int, y: int, k: nat)
    requires
        grid.sized(),
        k <= 9,
    ensures
        tally_of(grid.gathered(x, y, k)) == grid.tallied(x, y, k),
    decreases k,
{
    if k > 0 {
        lemma_tally_gathered(grid, x, y, (k - 1) as nat);
        let before = grid.gathered(x, y, (k - 1) as nat);
        let u = x + (k - 1) / 3 - 1;
        let v = y + (k - 1) % 3 - 1;
        if k != 5 && grid.contains(u, v) {
            lemma_tally_push(before, (grid.at(u, v), u as u32, v as u32));
        }
    }
}

/// The pixels beside a position add up to the tally around it.
pub proof fn lemma_tally_neighbors(grid: Grid, x: int, y: int)
    requires
        grid.sized(),
    ensures
        tally_of(grid.neighbors(x, y)) == grid.tally_around(x, y),
        grid.tally_around(x, y).bounded(),
        grid.tally_around(x, y).count <= 8,
{
    lemma_tally_gathered(grid, x, y, 9);
    lemma_tally_bounded(grid.neighbors(x, y));
    lemma_gathered_sound(grid, x, y, 9);
    assert(grid.tallied(x, y, 9) == grid.tally_around(x, y)) by {
        reveal_with_fuel(Grid::tallied, 10);
    }
}

/// A pixel has an opaque pixel beside it exactly when the tally around it
/// counts one.
pub proof fn lemma_tally_counts(grid: Grid, x: int, y: int)
    ensures
        grid.tally_around(x, y).count > 0 <==> exists|u: int, v: int|
            adjacent(x, y, u, v) && #[trigger] grid.opaque_at(u, v),
{
    if grid.tally_around(x, y).count > 0 {
        if grid.opaque_at(x - 1, y - 1) {
        } else if grid.opaque_at(x - 1, y) {
        } else if grid.opaque_at(x - 1, y + 1) {
        } else if grid.opaque_at(x, y - 1) {
        } else if grid.opaque_at(x, y + 1) {
        } else if grid.opaque_at(x + 1, y - 1) {
        } else if grid.opaque_at(x + 1, y) {
        } else {
            assert(grid.opaque_at(x + 1, y + 1));
        }
    }
}

} // verus!
