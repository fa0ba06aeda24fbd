//! Pixels and positions.

use vstd::prelude::*;

verus! {

/// One pixel: red, green, blue and alpha, eight bits each.
#[derive(Clone, Copy, Debug, PartialEq, Eq, Structural)]
pub struct Rgba {
    pub r: u8,
    pub g: u8,
    pub b: u8,
    pub a: u8,
}

impl Rgba {
    /// A pixel is transparent when its alpha is zero, and opaque otherwise.
    pub open spec fn transparent(self) -> bool {
        self.a == 0
    }

    /// The pixel with its alpha set to `a` and its colour kept.
    pub open spec fn with_alpha(self, a: u8) -> Rgba {
        Rgba { r: self.r, g: self.g, b: self.b, a }
    }

    /// Red.
    pub fn r(&self) -> (v: u8)
        ensures
            v == self.r,
    {
        self.r
    }

    /// Green.
    pub fn g(&self) -> (v: u8)
        ensures
            v == self.g,
    {
        self.g
    }

    /// Blue.
    pub fn b(&self) -> (v: u8)
        ensures
            v == self.b,
    {
        self.b
    }

    /// Alpha: zero for a transparent pixel.
    pub fn a(&self) -> (v: u8)
        ensures
            v == self.a,
    {
        self.a
    }

    /// Whether alpha is zero.
    pub fn is_transparent(&self) -> (t: bool)
        ensures
            t == self.transparent(),
    {
        self.a == 0
    }

    /// Sets alpha to zero and leaves the colour as it is.
    pub fn set_transparent(&mut self)
        ensures
            *final(self) == old(self).with_alpha(0),
    {
        self.a = 0;
    }
}

/// A place in an image: column `x`, row `y`.
#[derive(Clone, Copy, Debug, PartialEq, Eq, Structural)]
pub struct Position {
    pub x: u32,
    pub y: u32,
}

/// Whether column `x` of row `y` is among `positions`.
pub open spec fn listed(positions: Seq<Position>, x: int, y: int) -> bool {
    exists|k: int|
        0 <= k < positions.len() && (#[trigger] positions[k]).x == x && positions[k].y == y
}

/// No position occurs twice.
pub open spec fn distinct(positions: Seq<Position>) -> bool {
    forall|j: int, k: int|
        0 <= j < k < positions.len() ==> #[trigger] positions[j] != #[trigger] positions[k]
}

/// A list with one more position holds that position and what it held.
pub proof fn lemma_listed_push(positions: Seq<Position>, last: Position, x: int, y: int)
    ensures
        listed(positions.push(last), x, y) <==> listed(positions, x, y) || (last.x == x && last.y
            == y),
{
    let longer = positions.push(last);
    if listed(positions, x, y) {
        let k = choose|k: int|
            0 <= k < positions.len() && (#[trigger] positions[k]).x == x && positions[k].y == y;
        assert(longer[k] == positions[k]);
    }
    if last.x == x && last.y == y {
        assert(longer[positions.len() as int] == last);
    }
    if listed(longer, x, y) {
        let k = choose|k: int|
            0 <= k < longer.len() && (#[trigger] longer[k]).x == x && longer[k].y == y;
        if k < positions.len() {
            assert(positions[k] == longer[k]);
        }
    }
}

/// Two lists joined hold what either held.
pub proof fn lemma_listed_add(first: Seq<Position>, second: Seq<Position>, x: int, y: int)
    ensures
        listed(first + second, x, y) <==> listed(first, x, y) || listed(second, x, y),
{
    let joined = first + second;
    if listed(first, x, y) {
        let k = choose|k: int|
            0 <= k < first.len() && (#[trigger] first[k]).x == x && first[k].y == y;
        assert(joined[k] == first[k]);
    }
    if listed(second, x, y) {
        let k = choose|k: int|
            0 <= k < second.len() && (#[trigger] second[k]).x == x && second[k].y == y;
        assert(joined[first.len() + k] == second[k]);
    }
    if listed(joined, x, y) {
        let k = choose|k: int|
            0 <= k < joined.len() && (#[trigger] joined[k]).x == x && joined[k].y == y;
        if k < first.len() {
            assert(first[k] == joined[k]);
        } else {
            assert(second[k - first.len()] == joined[k]);
        }
    }
}

/// Two lists without a repeat and without a position in common join to a
/// list without a repeat.
pub proof fn lemma_distinct_add(first: Seq<Position>, second: Seq<Position>)
    requires
        distinct(first),
        distinct(second),
        forall|j: int, k: int|
            0 <= j < first.len() && 0 <= k < second.len() ==> #[trigger] first[j]
                != #[trigger] second[k],
    ensures
        distinct(first + second),
{
    let joined = first + second;
    assert forall|j: int, k: int| 0 <= j < k < joined.len() implies #[trigger] joined[j]
        != #[trigger] joined[k] by {
        if k < first.len() {
            assert(first[j] != first[k]);
        } else if j < first.len() {
            assert(first[j] != second[k - first.len()]);
        } else {
            assert(second[j - first.len()] != second[k - first.len()]);
        }
    }
}

} // verus!
