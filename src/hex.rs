//! Axial hexagonal coordinates and the six directions around a cell.

use vstd::prelude::*;

verus! {

/// Axial hex coordinates. The first tile of a game sits at (0, 0).
pub type Loc = (i8, i8);

/// Coordinates that a board can hold a cell at: their six neighbors are representable,
/// and none of them is the corner (127, 127), which a board keeps for its sentinel.
pub open spec fn loc_in_range(loc: Loc) -> bool {
    -127 <= loc.0 <= 125 && -127 <= loc.1 <= 125
}

/// Coordinates whose six neighbors are all `loc_in_range`: a tile can be placed there.
pub open spec fn loc_inner(loc: Loc) -> bool {
    -126 <= loc.0 <= 124 && -126 <= loc.1 <= 124
}

/// The coordinate offsets of the six directions, clockwise from the upper left.
pub open spec fn dir_delta(dir: int) -> (int, int) {
    if dir == 0 {
        (-1, -1)
    } else if dir == 1 {
        (0, -1)
    } else if dir == 2 {
        (1, 0)
    } else if dir == 3 {
        (1, 1)
    } else if dir == 4 {
        (0, 1)
    } else {
        (-1, 0)
    }
}

/// The neighbor of `loc` in direction `dir` (0..6), in unbounded coordinates.
pub open spec fn neighbor_of(loc: Loc, dir: int) -> (int, int) {
    (loc.0 + dir_delta(dir).0, loc.1 + dir_delta(dir).1)
}

/// Whether `b` is the neighbor of `a` in direction `dir`.
pub open spec fn is_neighbor(a: Loc, b: Loc, dir: int) -> bool {
    neighbor_of(a, dir) == (b.0 as int, b.1 as int)
}

pub proof fn lemma_neighbor_opposite(a: Loc, b: Loc, d: int)
    requires
        0 <= d < 6,
        is_neighbor(a, b, d),
    ensures
        is_neighbor(b, a, (d + 3) % 6),
{
}

pub proof fn lemma_neighbor_unique(a: Loc, b: Loc, c: Loc, d: int)
    requires
        0 <= d < 6,
        is_neighbor(a, b, d),
        is_neighbor(a, c, d),
    ensures
        b == c,
{
}

/// The six neighbors of a location, in clockwise order starting at the upper left.
pub fn adjacent(loc: Loc) -> (r: [Loc; 6])
    requires
        loc_in_range(loc),
    ensures
        forall|d: int| 0 <= d < 6 ==> is_neighbor(loc, #[trigger] r@[d], d),
{
    let (x, y) = loc;
    [(x - 1, y - 1), (x, y - 1), (x + 1, y), (x + 1, y + 1), (x, y + 1), (x - 1, y)]
}

/// A dense integer key for an unbounded position.
pub open spec fn pos_key(p: (int, int)) -> int {
    (p.0 + 128) * 256 + (p.1 + 128)
}

/// A dense integer key for a location: distinct locations have distinct keys.
pub open spec fn loc_key(loc: Loc) -> int {
    pos_key((loc.0 as int, loc.1 as int))
}

pub proof fn lemma_loc_key_injective(a: Loc, b: Loc)
    ensures
        loc_key(a) == loc_key(b) <==> a == b,
        0 <= loc_key(a) < 65536,
        (loc_key(a) as u16) as int == loc_key(a),
{
}

pub proof fn lemma_pos_key_injective(p: (int, int), q: (int, int))
    requires
        -128 <= p.0 <= 127,
        -128 <= p.1 <= 127,
        -128 <= q.0 <= 127,
        -128 <= q.1 <= 127,
    ensures
        pos_key(p) == pos_key(q) <==> p == q,
        0 <= pos_key(p) < 65536,
        (pos_key(p) as u16) as int == pos_key(p),
{
}

/// The key of a location, as stored in a board's coordinate index.
pub fn key_of(loc: Loc) -> (r: u16)
    ensures
        r as int == loc_key(loc),
{
    ((loc.0 as i32 + 128) * 256 + (loc.1 as i32 + 128)) as u16
}

} // verus!
