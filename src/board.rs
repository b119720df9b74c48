//! Positions: the cell arena with its coordinate index and neighbor links, the tile
//! stacks, reserves and move counter, and the hash kept equal to the XOR of the tiles.

use vstd::prelude::*;

use std::collections::HashMap;

use crate::hex::{
    adjacent, is_neighbor, key_of, lemma_loc_key_injective, lemma_neighbor_opposite,
    lemma_neighbor_unique, lemma_pos_key_injective, loc_inner, loc_in_range, loc_key, neighbor_of,
    pos_key, Loc,
};
use crate::zobrist::{zob, zobrist};

verus! {

broadcast use vstd::std_specs::hash::group_hash_axioms;

/// Persistent identifier of a cell of the board.
pub type Id = u8;

/// The sentinel identifier: a neighbor that has not been allocated yet.
pub const UNASSIGNED: Id = 0;

/// The tallest stack a cell may hold.
pub const MAX_STACK: usize = 8;

#[derive(Copy, Clone, Debug, PartialEq, Eq, Structural, PartialOrd, Ord, Hash)]
pub enum Bug {
    Queen,
    Grasshopper,
    Spider,
    Ant,
    Beetle,
}

impl Bug {
    pub open spec fn spec_index(self) -> u8 {
        match self {
            Bug::Queen => 0,
            Bug::Grasshopper => 1,
            Bug::Spider => 2,
            Bug::Ant => 3,
            Bug::Beetle => 4,
        }
    }

    /// The position of the bug in a reserve row.
    #[verifier::when_used_as_spec(spec_index)]
    pub fn index(self) -> (r: u8)
        ensures
            r == self.spec_index(),
            r < 5,
    {
        match self {
            Bug::Queen => 0,
            Bug::Grasshopper => 1,
            Bug::Spider => 2,
            Bug::Ant => 3,
            Bug::Beetle => 4,
        }
    }
}

#[derive(Copy, Clone, Debug, PartialEq, Eq, Structural, Hash)]
pub enum Color {
    Black,
    White,
}

impl Color {
    pub open spec fn spec_index(self) -> u8 {
        match self {
            Color::Black => 0,
            Color::White => 1,
        }
    }

    /// 0 for Black, 1 for White.
    #[verifier::when_used_as_spec(spec_index)]
    pub fn index(self) -> (r: u8)
        ensures
            r == self.spec_index(),
            r < 2,
    {
        match self {
            Color::Black => 0,
            Color::White => 1,
        }
    }
}

/// A tile on the board, with the stack of tiles it covers.
pub struct Tile {
    pub bug: Bug,
    pub color: Color,
    pub underneath: Option<Box<Tile>>,
}

impl Tile {
    /// The tiles of this stack, bottom first; this tile is the last.
    pub open spec fn stack(&self) -> Seq<(Bug, Color)>
        decreases self,
    {
        match &self.underneath {
            Some(below) => below.stack().push((self.bug, self.color)),
            None => seq![(self.bug, self.color)],
        }
    }

    pub proof fn lemma_stack_nonempty(&self)
        ensures
            self.stack().len() >= 1,
            self.stack().last() == (self.bug, self.color),
        decreases self,
    {
        match &self.underneath {
            Some(below) => below.lemma_stack_nonempty(),
            None => {},
        }
    }

    /// Number of tiles below this one.
    pub fn height(&self) -> (r: u32)
        requires
            self.stack().len() <= MAX_STACK,
        ensures
            r as int == self.stack().len() - 1,
        decreases self,
    {
        proof {
            self.lemma_stack_nonempty();
        }
        if let Some(next) = &self.underneath {
            proof {
                next.lemma_stack_nonempty();
            }
            1 + next.height()
        } else {
            0
        }
    }
}

impl Clone for Tile {
    fn clone(&self) -> (r: Self)
        ensures
            r == *self,
        decreases self,
    {
        let underneath = match &self.underneath {
            Some(below) => Some(Box::new((**below).clone())),
            None => None,
        };
        Tile { bug: self.bug, color: self.color, underneath }
    }
}

/// The tiles held by an optional top tile, bottom first.
pub open spec fn stack_of(t: Option<Tile>) -> Seq<(Bug, Color)> {
    match t {
        Some(tile) => tile.stack(),
        None => Seq::empty(),
    }
}

/// A cell of the board: its six neighbors and its stack of tiles.
#[derive(Clone)]
pub struct Node {
    pub adj: [Id; 6],
    pub tile: Option<Tile>,
}

/// The hash contribution of the stack `s` standing on cell `id`.
pub open spec fn stack_hash(id: int, s: Seq<(Bug, Color)>) -> u64
    decreases s.len(),
{
    if s.len() == 0 {
        0
    } else {
        stack_hash(id, s.drop_last()) ^ zob(
            id as u8,
            s.last().0.spec_index(),
            s.last().1.spec_index(),
            (s.len() - 1) as nat,
        )
    }
}

/// XOR of the contributions of every tile on the first `n` cells.
pub open spec fn hash_upto(nodes: Seq<Node>, n: int) -> u64
    decreases n,
{
    if n <= 0 {
        0
    } else {
        hash_upto(nodes, n - 1) ^ stack_hash(n - 1, stack_of(nodes[n - 1].tile))
    }
}

/// Number of tiles of `bug` and `color` in a stack.
pub open spec fn count_in_stack(s: Seq<(Bug, Color)>, bug: Bug, color: Color) -> nat
    decreases s.len(),
{
    if s.len() == 0 {
        0
    } else {
        count_in_stack(s.drop_last(), bug, color) + if s.last() == (bug, color) {
            1nat
        } else {
            0nat
        }
    }
}

/// Number of tiles of `bug` and `color` on the first `n` cells.
pub open spec fn count_upto(nodes: Seq<Node>, n: int, bug: Bug, color: Color) -> nat
    decreases n,
{
    if n <= 0 {
        0
    } else {
        count_upto(nodes, n - 1, bug, color) + count_in_stack(
            stack_of(nodes[n - 1].tile),
            bug,
            color,
        )
    }
}

/// The reserve every player starts a game with, indexed by bug.
pub open spec fn initial_reserve(bug: Bug) -> u8 {
    match bug {
        Bug::Queen => 1,
        Bug::Grasshopper => 3,
        Bug::Spider => 2,
        Bug::Ant => 3,
        Bug::Beetle => 2,
    }
}

/// A game position: a lazily grown graph of hexagonal cells with their tiles.
#[derive(Clone)]
pub struct Board {
    pub nodes: Vec<Node>,
    pub id_to_loc: Vec<Loc>,
    pub loc_to_id: HashMap<u16, Id>,
    pub remaining: [[u8; 5]; 2],
    pub queens: [Id; 2],
    pub move_num: u16,
    pub zobrist_hash: u64,
    pub zobrist_history: Vec<u64>,
}

/// The location that stands for the sentinel cell.
pub open spec fn fake_loc() -> Loc {
    (127i8, 127i8)
}

impl Board {
    pub open spec fn len(self) -> int {
        self.nodes@.len() as int
    }

    pub open spec fn loc_of(self, id: int) -> Loc {
        self.id_to_loc@[id]
    }

    pub open spec fn adj(self, id: int, dir: int) -> Id {
        self.nodes@[id].adj@[dir]
    }

    pub open spec fn top(self, id: int) -> Option<Tile> {
        self.nodes@[id].tile
    }

    pub open spec fn occupied(self, id: int) -> bool {
        self.nodes@[id].tile is Some
    }

    pub open spec fn stack(self, id: int) -> Seq<(Bug, Color)> {
        stack_of(self.nodes@[id].tile)
    }

    /// Whether the unbounded position `p` has a cell.
    pub open spec fn has_pos(self, p: (int, int)) -> bool {
        -128 <= p.0 <= 127 && -128 <= p.1 <= 127 && self.loc_to_id@.contains_key(
            pos_key(p) as u16,
        )
    }

    /// Whether `loc` has a cell.
    pub open spec fn has_loc(self, loc: Loc) -> bool {
        self.loc_to_id@.contains_key(loc_key(loc) as u16)
    }

    /// The cell at `loc`, when `has_loc(loc)`.
    pub open spec fn id_at(self, loc: Loc) -> Id {
        self.loc_to_id@[loc_key(loc) as u16]
    }

    /// The hash that the tiles on the board add up to.
    pub open spec fn tiles_hash(self) -> u64 {
        hash_upto(self.nodes@, self.len())
    }

    /// Number of tiles of `bug` and `color` on the board.
    pub open spec fn placed_count(self, bug: Bug, color: Color) -> nat {
        count_upto(self.nodes@, self.len(), bug, color)
    }

    pub open spec fn spec_remaining(self, color: Color, bug: Bug) -> u8 {
        self.remaining[color.spec_index() as int][bug.spec_index() as int]
    }

    pub open spec fn spec_to_move(self) -> Color {
        if self.move_num % 2 == 0 {
            Color::Black
        } else {
            Color::White
        }
    }

    /// The coordinate index and the cell table agree.
    pub open spec fn index_wf(self) -> bool {
        &&& self.id_to_loc@.len() == self.nodes@.len()
        &&& self.id_to_loc@[0] == fake_loc()
        &&& forall|i: int| 1 <= i < self.len() ==> loc_in_range(#[trigger] self.id_to_loc@[i])
        &&& forall|k: u16| #[trigger]
            self.loc_to_id@.contains_key(k) ==> (self.loc_to_id@[k] as int) < self.len()
                && loc_key(self.id_to_loc@[self.loc_to_id@[k] as int]) == k as int
        &&& forall|i: int|
            0 <= i < self.len() ==> #[trigger] self.loc_to_id@.contains_key(
                loc_key(self.id_to_loc@[i]) as u16,
            ) && self.loc_to_id@[loc_key(self.id_to_loc@[i]) as u16] == i
    }

    /// The neighbor links agree with the coordinates.
    pub open spec fn links_wf(self) -> bool {
        &&& forall|i: int, d: int|
            0 <= i < self.len() && 0 <= d < 6 ==> (#[trigger] self.adj(i, d) as int) < self.len()
        &&& forall|d: int| 0 <= d < 6 ==> #[trigger] self.adj(0, d) == UNASSIGNED
        &&& forall|i: int, d: int|
            1 <= i < self.len() && 0 <= d < 6 && #[trigger] self.adj(i, d) != UNASSIGNED
                ==> is_neighbor(self.loc_of(i), self.loc_of(self.adj(i, d) as int), d)
        &&& forall|i: int, d: int|
            1 <= i < self.len() && 0 <= d < 6 && #[trigger] self.adj(i, d) == UNASSIGNED
                ==> !self.has_pos(neighbor_of(self.loc_of(i), d))
    }

    /// Well-formedness of a position.
    pub open spec fn wf(self) -> bool {
        &&& 1 <= self.len() <= 256
        &&& self.index_wf()
        &&& self.links_wf()
        &&& !self.occupied(0)
        &&& forall|i: int, d: int|
            0 <= i < self.len() && self.occupied(i) && 0 <= d < 6 ==> #[trigger] self.adj(i, d)
                != UNASSIGNED
        &&& forall|i: int| 0 <= i < self.len() ==> (#[trigger] self.stack(i)).len() <= MAX_STACK
        &&& (self.queens[0] as int) < self.len()
        &&& (self.queens[1] as int) < self.len()
        &&& self.zobrist_history@.len() == self.move_num
        &&& self.zobrist_hash == self.tiles_hash()
    }

    /// The cells of `old` keep their locations and links in `self`, and the cells that
    /// `self` adds are empty.
    pub open spec fn arena_grows(self, old: Board) -> bool {
        &&& old.len() <= self.len()
        &&& forall|i: int| 0 <= i < old.len() ==> #[trigger] self.id_to_loc@[i] == old.id_to_loc@[i]
        &&& forall|i: int, d: int|
            0 <= i < old.len() && 0 <= d < 6 && old.adj(i, d) != UNASSIGNED ==> #[trigger] self.adj(
                i,
                d,
            ) == old.adj(i, d)
        &&& forall|i: int| old.len() <= i < self.len() ==> !#[trigger] self.occupied(i)
        &&& forall|l: Loc| #[trigger]
            old.has_loc(l) ==> self.has_loc(l) && self.id_at(l) == old.id_at(l)
    }

    /// `self` is `old` with possibly more cells allocated: no tile, reserve, counter or
    /// hash has changed, every known location keeps its id and every link is kept.
    pub open spec fn extends(self, old: Board) -> bool {
        &&& self.arena_grows(old)
        &&& forall|i: int| 0 <= i < old.len() ==> #[trigger] self.nodes@[i].tile == old.nodes@[i].tile
        &&& self.remaining == old.remaining
        &&& self.queens == old.queens
        &&& self.move_num == old.move_num
        &&& self.zobrist_hash == old.zobrist_hash
        &&& self.zobrist_history@ == old.zobrist_history@
    }
}


pub proof fn lemma_hash_same(a: Seq<Node>, b: Seq<Node>, n: int)
    requires
        0 <= n <= a.len(),
        n <= b.len(),
        forall|i: int| 0 <= i < n ==> #[trigger] a[i].tile == b[i].tile,
    ensures
        hash_upto(a, n) == hash_upto(b, n),
    decreases n,
{
    if n > 0 {
        lemma_hash_same(a, b, n - 1);
    }
}

pub proof fn lemma_hash_same_stacks(a: Seq<Node>, b: Seq<Node>, n: int)
    requires
        0 <= n <= a.len(),
        n <= b.len(),
        forall|i: int| 0 <= i < n ==> #[trigger] stack_of(a[i].tile) == stack_of(b[i].tile),
    ensures
        hash_upto(a, n) == hash_upto(b, n),
    decreases n,
{
    if n > 0 {
        lemma_hash_same_stacks(a, b, n - 1);
        assert(stack_of(a[n - 1].tile) == stack_of(b[n - 1].tile));
    }
}

/// The hash of a position is the XOR, over every tile on the board, of the word of
/// its cell, bug and color rotated by its height.
pub proof fn lemma_hash_is_xor_of_tiles(b: Board)
    requires
        b.wf(),
    ensures
        b.zobrist_hash == hash_upto(b.nodes@, b.len()),
{
}

/// Empty cells add nothing to the hash.
pub proof fn lemma_hash_grow(a: Seq<Node>, n: int, m: int)
    requires
        0 <= n <= m <= a.len(),
        forall|i: int| n <= i < m ==> #[trigger] a[i].tile is None,
    ensures
        hash_upto(a, m) == hash_upto(a, n),
    decreases m - n,
{
    if m > n {
        lemma_hash_grow(a, n, m - 1);
        let h = hash_upto(a, m - 1);
        assert(h ^ 0u64 == h) by (bit_vector);
    }
}

/// Changing the stack of one cell changes the hash by that stack's contributions.
pub proof fn lemma_hash_change(a: Seq<Node>, b: Seq<Node>, n: int, j: int)
    requires
        0 <= j < n <= a.len(),
        n <= b.len(),
        forall|i: int| 0 <= i < n && i != j ==> #[trigger] a[i].tile == b[i].tile,
    ensures
        hash_upto(b, n) == hash_upto(a, n) ^ stack_hash(j, stack_of(a[j].tile)) ^ stack_hash(
            j,
            stack_of(b[j].tile),
        ),
    decreases n,
{
    let sa = stack_hash(j, stack_of(a[j].tile));
    let sb = stack_hash(j, stack_of(b[j].tile));
    if n - 1 == j {
        lemma_hash_same(a, b, j);
        let h = hash_upto(a, j);
        assert(h ^ sb == (h ^ sa) ^ sa ^ sb) by (bit_vector);
    } else {
        lemma_hash_change(a, b, n - 1, j);
        let ha = hash_upto(a, n - 1);
        let s = stack_hash(n - 1, stack_of(a[n - 1].tile));
        assert((ha ^ sa ^ sb) ^ s == (ha ^ s) ^ sa ^ sb) by (bit_vector);
    }
}

pub proof fn lemma_count_same(a: Seq<Node>, b: Seq<Node>, n: int, bug: Bug, color: Color)
    requires
        0 <= n <= a.len(),
        n <= b.len(),
        forall|i: int| 0 <= i < n ==> #[trigger] stack_of(a[i].tile) == stack_of(b[i].tile),
    ensures
        count_upto(a, n, bug, color) == count_upto(b, n, bug, color),
    decreases n,
{
    if n > 0 {
        lemma_count_same(a, b, n - 1, bug, color);
        assert(stack_of(a[n - 1].tile) == stack_of(b[n - 1].tile));
    }
}

pub proof fn lemma_count_grow(a: Seq<Node>, n: int, m: int, bug: Bug, color: Color)
    requires
        0 <= n <= m <= a.len(),
        forall|i: int| n <= i < m ==> #[trigger] a[i].tile is None,
    ensures
        count_upto(a, m, bug, color) == count_upto(a, n, bug, color),
    decreases m - n,
{
    if m > n {
        lemma_count_grow(a, n, m - 1, bug, color);
    }
}

/// Changing the stack of one cell changes the count by the difference of that
/// cell's counts.
pub proof fn lemma_count_change(a: Seq<Node>, b: Seq<Node>, n: int, j: int, bug: Bug, color: Color)
    requires
        0 <= j < n <= a.len(),
        n <= b.len(),
        forall|i: int|
            0 <= i < n && i != j ==> #[trigger] stack_of(a[i].tile) == stack_of(b[i].tile),
    ensures
        count_upto(b, n, bug, color) + count_in_stack(stack_of(a[j].tile), bug, color)
            == count_upto(a, n, bug, color) + count_in_stack(stack_of(b[j].tile), bug, color),
    decreases n,
{
    if n - 1 == j {
        lemma_count_same(a, b, j, bug, color);
    } else {
        lemma_count_change(a, b, n - 1, j, bug, color);
        assert(stack_of(a[n - 1].tile) == stack_of(b[n - 1].tile));
    }
}

impl Board {
    proof fn lemma_id_at(self, l: Loc)
        requires
            self.wf(),
            self.has_loc(l),
        ensures
            (self.id_at(l) as int) < self.len(),
            self.loc_of(self.id_at(l) as int) == l,
            l != fake_loc() ==> self.id_at(l) != UNASSIGNED,
    {
        let k = loc_key(l) as u16;
        lemma_loc_key_injective(l, self.loc_of(self.id_at(l) as int));
        lemma_loc_key_injective(l, fake_loc());
    }

    /// What `allocate` leaves behind when it adds a cell: the proof that the links
    /// built for it keep the board well formed.
    proof fn lemma_allocated(self, o: Board, loc: Loc, nbrs: Seq<Loc>)
        requires
            o.wf(),
            !o.has_loc(loc),
            loc_in_range(loc),
            o.len() < 256,
            nbrs.len() == 6,
            forall|d: int| 0 <= d < 6 ==> is_neighbor(loc, #[trigger] nbrs[d], d),
            self.loc_to_id@ == o.loc_to_id@.insert(loc_key(loc) as u16, o.len() as u8),
            self.id_to_loc@ == o.id_to_loc@.push(loc),
            self.remaining == o.remaining,
            self.queens == o.queens,
            self.move_num == o.move_num,
            self.zobrist_hash == o.zobrist_hash,
            self.zobrist_history@ == o.zobrist_history@,
            self.nodes@.len() == o.len() + 1,
            self.nodes@[o.len()].tile is None,
            forall|j: int| 0 <= j < o.len() ==> #[trigger] self.nodes@[j].tile == o.nodes@[j].tile,
            forall|j: int, d: int|
                0 <= j < o.len() && 0 <= d < 6 ==> #[trigger] self.adj(j, d) == if o.has_loc(
                    nbrs[(d + 3) % 6],
                ) && j == o.id_at(nbrs[(d + 3) % 6]) {
                    o.len() as u8
                } else {
                    o.adj(j, d)
                },
            forall|e: int|
                0 <= e < 6 ==> #[trigger] self.adj(o.len(), e) == if o.has_loc(nbrs[e]) {
                    o.id_at(nbrs[e])
                } else {
                    UNASSIGNED
                },
        ensures
            self.wf(),
            self.extends(o),
            self.loc_of(o.len()) == loc,
            self.has_loc(loc),
            self.id_at(loc) as int == o.len(),
    {
        let n = o.len();
        let key = loc_key(loc) as u16;
        lemma_loc_key_injective(loc, fake_loc());
        assert forall|l: Loc| #[trigger] o.has_loc(l) implies self.has_loc(l) && self.id_at(l)
            == o.id_at(l) by {
            lemma_loc_key_injective(l, loc);
        }
        assert forall|d: int| 0 <= d < 6 && o.has_loc(nbrs[d]) implies {
            let j = o.id_at(nbrs[d]) as int;
            &&& 1 <= j < n
            &&& o.loc_of(j) == nbrs[d]
            &&& o.adj(j, (d + 3) % 6) == UNASSIGNED
        } by {
            o.lemma_id_at(nbrs[d]);
            lemma_loc_key_injective(nbrs[d], fake_loc());
            let j = o.id_at(nbrs[d]) as int;
            assert(nbrs[d] != fake_loc());
            assert(1 <= j < n);
            assert(o.loc_of(j) == nbrs[d]);
            if o.adj(j, (d + 3) % 6) != UNASSIGNED {
                let k = o.adj(j, (d + 3) % 6) as int;
                lemma_neighbor_opposite(loc, nbrs[d], d);
                assert(is_neighbor(o.loc_of(j), o.loc_of(k), (d + 3) % 6));
                lemma_neighbor_unique(nbrs[d], loc, o.loc_of(k), (d + 3) % 6);
                assert(0 <= k < n);
                assert(o.loc_to_id@.contains_key(loc_key(o.id_to_loc@[k]) as u16));
                assert(o.has_loc(loc));
            }
        }
        // Index.
        assert forall|i: int| 0 <= i < self.len() implies #[trigger] self.loc_to_id@.contains_key(
            loc_key(self.id_to_loc@[i]) as u16,
        ) && self.loc_to_id@[loc_key(self.id_to_loc@[i]) as u16] == i by {
            if i < n {
                lemma_loc_key_injective(self.id_to_loc@[i], loc);
            }
        }
        assert forall|k: u16| #[trigger] self.loc_to_id@.contains_key(k) implies (
        self.loc_to_id@[k] as int) < self.len() && loc_key(
            self.id_to_loc@[self.loc_to_id@[k] as int],
        ) == k as int by {
            if k != key {
                assert(o.loc_to_id@.contains_key(k));
            }
        }
        // Links.
        assert forall|i: int, d: int|
            1 <= i < self.len() && 0 <= d < 6 && #[trigger] self.adj(i, d)
                != UNASSIGNED implies is_neighbor(
            self.loc_of(i),
            self.loc_of(self.adj(i, d) as int),
            d,
        ) by {
            if i < n {
                if o.has_loc(nbrs[(d + 3) % 6]) && i == o.id_at(nbrs[(d + 3) % 6]) {
                    assert(o.loc_of(i) == nbrs[(d + 3) % 6]);
                }
            } else {
                o.lemma_id_at(nbrs[d]);
            }
        }
        assert forall|i: int, d: int|
            1 <= i < self.len() && 0 <= d < 6 && #[trigger] self.adj(i, d)
                == UNASSIGNED implies !self.has_pos(neighbor_of(self.loc_of(i), d)) by {
            let p = neighbor_of(self.loc_of(i), d);
            if i < n {
                assert(o.adj(i, d) == UNASSIGNED);
                assert(!o.has_pos(p));
                if self.has_pos(p) {
                    lemma_pos_key_injective(p, (loc.0 as int, loc.1 as int));
                    assert(p == (loc.0 as int, loc.1 as int));
                    let e = (d + 3) % 6;
                    assert(o.loc_of(i) == nbrs[e]);
                    assert(o.has_loc(nbrs[e]));
                    o.lemma_id_at(nbrs[e]);
                    lemma_loc_key_injective(o.loc_of(o.id_at(nbrs[e]) as int), o.loc_of(i));
                }
            } else {
                assert(!o.has_loc(nbrs[d]));
                if self.has_pos(p) {
                    lemma_pos_key_injective(p, (loc.0 as int, loc.1 as int));
                    if pos_key(p) != loc_key(loc) {
                        assert(o.loc_to_id@.contains_key(pos_key(p) as u16));
                        assert(loc_key(nbrs[d]) == pos_key(p));
                    }
                }
            }
        }
        assert forall|i: int, d: int|
            0 <= i < self.len() && 0 <= d < 6 implies (#[trigger] self.adj(i, d) as int)
            < self.len() by {
            if i < n {
            } else if o.has_loc(nbrs[d]) {
                o.lemma_id_at(nbrs[d]);
            }
        }
        assert forall|i: int, d: int|
            0 <= i < self.len() && self.occupied(i) && 0 <= d < 6 implies #[trigger] self.adj(i, d)
            != UNASSIGNED by {
            assert(o.occupied(i));
        }
        assert forall|i: int| 0 <= i < self.len() implies (#[trigger] self.stack(i)).len()
            <= MAX_STACK by {
            if i < n {
                assert(self.stack(i) == o.stack(i));
            }
        }
        lemma_hash_same(o.nodes@, self.nodes@, n);
        lemma_hash_grow(self.nodes@, n, n + 1);
    }

    /// The cell at `loc`, allocated and linked to its known neighbors if it is new.
    pub fn allocate(&mut self, loc: Loc) -> (r: Id)
        requires
            old(self).wf(),
            loc_in_range(loc),
            old(self).has_loc(loc) || old(self).len() < 256,
        ensures
            final(self).wf(),
            final(self).extends(*old(self)),
            (r as int) < final(self).len(),
            r != UNASSIGNED,
            final(self).loc_of(r as int) == loc,
            final(self).has_loc(loc),
            final(self).id_at(loc) == r,
            old(self).has_loc(loc) ==> *final(self) == *old(self),
            !old(self).has_loc(loc) ==> final(self).len() == old(self).len() + 1 && r as int
                == old(self).len(),
    {
        let key = key_of(loc);
        proof {
            lemma_loc_key_injective(loc, fake_loc());
        }
        if let Some(id) = self.loc_to_id.get(&key) {
            proof {
                self.lemma_id_at(loc);
            }
            return *id;
        }
        let ghost o = *self;
        let new_id: Id = self.nodes.len() as Id;
        let mut node = Node { tile: None, adj: [UNASSIGNED; 6] };
        let nbrs = adjacent(loc);
        let mut i: usize = 0;
        while i < 6
            invariant
                0 <= i <= 6,
                o.wf(),
                !o.has_loc(loc),
                loc_in_range(loc),
                new_id as int == o.len(),
                o.len() < 256,
                forall|d: int| 0 <= d < 6 ==> is_neighbor(loc, #[trigger] nbrs@[d], d),
                self.loc_to_id@ == o.loc_to_id@,
                self.id_to_loc@ == o.id_to_loc@,
                self.remaining == o.remaining,
                self.queens == o.queens,
                self.move_num == o.move_num,
                self.zobrist_hash == o.zobrist_hash,
                self.zobrist_history@ == o.zobrist_history@,
                self.nodes@.len() == o.len(),
                node.tile is None,
                forall|j: int| 0 <= j < o.len() ==> #[trigger] self.nodes@[j].tile == o.nodes@[j].tile,
                forall|j: int, d: int|
                    0 <= j < o.len() && 0 <= d < 6 ==> #[trigger] self.adj(j, d) == if (d + 3) % 6
                        < i && o.has_loc(nbrs@[(d + 3) % 6]) && j == o.id_at(nbrs@[(d + 3) % 6]) {
                        new_id
                    } else {
                        o.adj(j, d)
                    },
                forall|e: int|
                    0 <= e < 6 ==> #[trigger] node.adj@[e] == if e < i && o.has_loc(nbrs@[e]) {
                        o.id_at(nbrs@[e])
                    } else {
                        UNASSIGNED
                    },
            decreases 6 - i,
        {
            let k = key_of(nbrs[i]);
            proof {
                lemma_loc_key_injective(nbrs@[i as int], loc);
            }
            let ghost before = *self;
            if let Some(id) = self.loc_to_id.get(&k) {
                let id = *id;
                proof {
                    o.lemma_id_at(nbrs@[i as int]);
                }
                node.adj[i] = id;
                self.nodes[id as usize].adj[(i + 3) % 6] = new_id;
                assert((((i + 3) % 6) + 3) % 6 == i);
            } else {
                assert(!o.has_loc(nbrs@[i as int]));
            }
            assert forall|j: int, d: int| 0 <= j < o.len() && 0 <= d < 6 implies #[trigger] self.adj(
                j,
                d,
            ) == if (d + 3) % 6 < i + 1 && o.has_loc(nbrs@[(d + 3) % 6]) && j == o.id_at(
                nbrs@[(d + 3) % 6],
            ) {
                new_id
            } else {
                o.adj(j, d)
            } by {
                assert(before.adj(j, d) == if (d + 3) % 6 < i && o.has_loc(nbrs@[(d + 3) % 6]) && j
                    == o.id_at(nbrs@[(d + 3) % 6]) {
                    new_id
                } else {
                    o.adj(j, d)
                });
                if (d + 3) % 6 == i && o.has_loc(nbrs@[i as int]) && j == o.id_at(nbrs@[i as int]) {
                    assert(d == (i + 3) % 6);
                }
            }
            i += 1;
        }
        let ghost after_loop = *self;
        self.loc_to_id.insert(key, new_id);
        self.id_to_loc.push(loc);
        let ghost mid = self.nodes@;
        self.nodes.push(node);
        proof {
            assert forall|j: int, d: int| 0 <= j < o.len() && 0 <= d < 6 implies #[trigger] self.adj(
                j,
                d,
            ) == if o.has_loc(nbrs@[(d + 3) % 6]) && j == o.id_at(nbrs@[(d + 3) % 6]) {
                o.len() as u8
            } else {
                o.adj(j, d)
            } by {
                assert(self.nodes@[j] == mid[j]);
                assert((d + 3) % 6 < 6);
                assert(after_loop.adj(j, d) == self.adj(j, d));
            }
            self.lemma_allocated(o, loc, nbrs@);
        }
        new_id
    }
}

impl Default for Board {
    /// The same empty position as `Board::new`.
    fn default() -> (r: Board)
        ensures
            r.wf(),
            r.len() == 3,
            r.loc_of(0) == fake_loc(),
            r.loc_of(1) == (0i8, 0i8),
            r.loc_of(2) == (1i8, 0i8),
            r.has_loc((0i8, 0i8)) && r.id_at((0i8, 0i8)) == 1,
            r.has_loc((1i8, 0i8)) && r.id_at((1i8, 0i8)) == 2,
            r.adj(1, 2) == 2 && r.adj(2, 5) == 1,
            forall|i: int| 0 <= i < r.len() ==> !#[trigger] r.occupied(i),
            r.move_num == 0,
            r.zobrist_hash == 0,
            r.zobrist_history@.len() == 0,
            r.queens[0] == UNASSIGNED && r.queens[1] == UNASSIGNED,
            forall|c: Color, b: Bug| #[trigger] r.spec_remaining(c, b) == initial_reserve(b),
    {
        Board::new()
    }
}

impl Board {
    pub proof fn lemma_extends_trans(a: Board, b: Board, c: Board)
        requires
            b.extends(a),
            c.extends(b),
        ensures
            c.extends(a),
    {
        assert forall|i: int, d: int|
            0 <= i < a.len() && 0 <= d < 6 && a.adj(i, d) != UNASSIGNED implies #[trigger] c.adj(
            i,
            d,
        ) == a.adj(i, d) by {
            assert(b.adj(i, d) == a.adj(i, d));
        }
        assert forall|i: int| a.len() <= i < c.len() implies !#[trigger] c.occupied(i) by {
            if i < b.len() {
                assert(!b.occupied(i));
            }
        }
    }

    pub proof fn lemma_occupied_stack(self, i: int)
        ensures
            self.occupied(i) <==> self.stack(i).len() > 0,
    {
        if let Some(t) = self.nodes@[i].tile {
            t.lemma_stack_nonempty();
        }
    }

    pub proof fn lemma_index_same(a: Board, r: Board)
        requires
            a.index_wf(),
            r.nodes@.len() == a.nodes@.len(),
            r.id_to_loc@ == a.id_to_loc@,
            r.loc_to_id@ == a.loc_to_id@,
        ensures
            r.index_wf(),
    {
        assert forall|i: int| 1 <= i < r.len() implies loc_in_range(#[trigger] r.id_to_loc@[i]) by {
            assert(loc_in_range(a.id_to_loc@[i]));
        }
    }

    pub proof fn lemma_arena_trans(a: Board, b: Board, c: Board)
        requires
            b.arena_grows(a),
            c.arena_grows(b),
            forall|i: int| a.len() <= i < b.len() ==> !#[trigger] c.occupied(i),
        ensures
            c.arena_grows(a),
    {
        assert forall|i: int, d: int|
            0 <= i < a.len() && 0 <= d < 6 && a.adj(i, d) != UNASSIGNED implies #[trigger] c.adj(
            i,
            d,
        ) == a.adj(i, d) by {
            assert(b.adj(i, d) == a.adj(i, d));
        }
        assert forall|i: int| a.len() <= i < c.len() implies !#[trigger] c.occupied(i) by {
            if i < b.len() {
                assert(!b.occupied(i));
            }
        }
        assert forall|i: int| 0 <= i < a.len() implies #[trigger] c.id_to_loc@[i] == a.id_to_loc@[i] by {
            assert(b.id_to_loc@[i] == a.id_to_loc@[i]);
        }
    }

    /// Changing only the counter, hash history, reserves and queen cells keeps a board
    /// well formed.
    pub proof fn lemma_counter_update(a: Board, r: Board)
        requires
            a.wf(),
            r.nodes@ == a.nodes@,
            r.id_to_loc@ == a.id_to_loc@,
            r.loc_to_id@ == a.loc_to_id@,
            (r.queens[0] as int) < r.len(),
            (r.queens[1] as int) < r.len(),
            r.zobrist_hash == a.zobrist_hash,
            r.zobrist_history@.len() == r.move_num,
        ensures
            r.wf(),
            r.arena_grows(a),
            forall|i: int| 0 <= i < r.len() ==> #[trigger] r.stack(i) == a.stack(i),
            forall|i: int| 0 <= i < r.len() ==> #[trigger] r.occupied(i) == a.occupied(i),
    {
        assert(r.tiles_hash() == a.tiles_hash());
        assert forall|i: int| 0 <= i < r.len() implies (#[trigger] r.stack(i)).len() <= MAX_STACK by {
            assert(r.stack(i) == a.stack(i));
        }
        assert forall|i: int, d: int|
            0 <= i < r.len() && r.occupied(i) && 0 <= d < 6 implies #[trigger] r.adj(i, d)
            != UNASSIGNED by {
            assert(a.occupied(i));
            assert(r.adj(i, d) == a.adj(i, d));
        }
        assert forall|i: int| 1 <= i < r.len() implies loc_in_range(#[trigger] r.id_to_loc@[i]) by {
            assert(loc_in_range(a.id_to_loc@[i]));
        }
        assert forall|i: int, d: int|
            0 <= i < r.len() && 0 <= d < 6 implies (#[trigger] r.adj(i, d) as int) < r.len() by {
            assert(r.adj(i, d) == a.adj(i, d));
        }
        assert forall|d: int| 0 <= d < 6 implies #[trigger] r.adj(0, d) == UNASSIGNED by {
            assert(r.adj(0, d) == a.adj(0, d));
        }
        assert forall|i: int, d: int|
            1 <= i < r.len() && 0 <= d < 6 && #[trigger] r.adj(i, d) != UNASSIGNED implies is_neighbor(
            r.loc_of(i),
            r.loc_of(r.adj(i, d) as int),
            d,
        ) by {
            assert(r.adj(i, d) == a.adj(i, d));
            assert(a.adj(i, d) != UNASSIGNED);
        }
        assert forall|i: int, d: int|
            1 <= i < r.len() && 0 <= d < 6 && #[trigger] r.adj(i, d) == UNASSIGNED implies !r.has_pos(
            neighbor_of(r.loc_of(i), d),
        ) by {
            assert(r.adj(i, d) == a.adj(i, d));
            assert(a.adj(i, d) == UNASSIGNED);
            assert(!a.has_pos(neighbor_of(a.loc_of(i), d)));
        }
        assert(r.index_wf());
        assert(r.links_wf());
        assert(!r.occupied(0)) by {
            assert(!a.occupied(0));
        }
        assert forall|l: Loc| #[trigger] a.has_loc(l) implies r.has_loc(l) && r.id_at(l) == a.id_at(
            l,
        ) by {}
        assert forall|i: int, d: int|
            0 <= i < a.len() && 0 <= d < 6 && a.adj(i, d) != UNASSIGNED implies #[trigger] r.adj(
            i,
            d,
        ) == a.adj(i, d) by {}
    }

    /// An empty position: Black to move, full reserves, and the two opening cells
    /// (0, 0) and (1, 0) allocated as ids 1 and 2.
    pub fn new() -> (r: Board)
        ensures
            r.wf(),
            r.len() == 3,
            r.loc_of(0) == fake_loc(),
            r.loc_of(1) == (0i8, 0i8),
            r.loc_of(2) == (1i8, 0i8),
            r.has_loc((0i8, 0i8)) && r.id_at((0i8, 0i8)) == 1,
            r.has_loc((1i8, 0i8)) && r.id_at((1i8, 0i8)) == 2,
            r.adj(1, 2) == 2 && r.adj(2, 5) == 1,
            forall|i: int| 0 <= i < r.len() ==> !#[trigger] r.occupied(i),
            r.move_num == 0,
            r.zobrist_hash == 0,
            r.zobrist_history@.len() == 0,
            r.queens[0] == UNASSIGNED && r.queens[1] == UNASSIGNED,
            forall|c: Color, b: Bug| #[trigger] r.spec_remaining(c, b) == initial_reserve(b),
    {
        let fake: Loc = (127, 127);
        let mut loc_to_id: HashMap<u16, Id> = HashMap::new();
        loc_to_id.insert(key_of(fake), UNASSIGNED);
        let mut board = Board {
            nodes: vec![Node { adj: [UNASSIGNED; 6], tile: None }],
            id_to_loc: vec![fake],
            loc_to_id,
            remaining: [[1, 3, 2, 3, 2], [1, 3, 2, 3, 2]],
            queens: [UNASSIGNED; 2],
            move_num: 0,
            zobrist_hash: 0,
            zobrist_history: Vec::new(),
        };
        proof {
            lemma_loc_key_injective(fake, fake);
            assert(board.tiles_hash() == 0u64) by {
                assert(hash_upto(board.nodes@, 0) == 0);
                assert(stack_of(board.nodes@[0].tile) == Seq::<(Bug, Color)>::empty());
                assert(stack_hash(0, Seq::empty()) == 0);
                assert(0u64 ^ 0u64 == 0u64) by (bit_vector);
            }
            assert forall|k: u16| #[trigger] board.loc_to_id@.contains_key(k) implies (
            board.loc_to_id@[k] as int) < board.len() && loc_key(
                board.id_to_loc@[board.loc_to_id@[k] as int],
            ) == k as int by {}
        }
        let ghost b0 = board;
        board.allocate((0, 0));
        let ghost b1 = board;
        board.allocate((1, 0));
        proof {
            Board::lemma_extends_trans(b0, b1, board);
            lemma_loc_key_injective((0i8, 0i8), (1i8, 0i8));
            board.lemma_link_to(1, 2, (1i8, 0i8));
            board.lemma_link_to(2, 5, (0i8, 0i8));
        }
        board
    }

    /// A link from a cell to a location that has a cell leads to that cell.
    pub proof fn lemma_link_to(self, i: int, d: int, l: Loc)
        requires
            self.wf(),
            1 <= i < self.len(),
            0 <= d < 6,
            self.has_loc(l),
            is_neighbor(self.loc_of(i), l, d),
        ensures
            self.adj(i, d) == self.id_at(l),
    {
        let p = neighbor_of(self.loc_of(i), d);
        lemma_pos_key_injective(p, (l.0 as int, l.1 as int));
        assert(self.has_pos(p));
        assert(self.adj(i, d) != UNASSIGNED);
        let k = self.adj(i, d) as int;
        lemma_neighbor_unique(self.loc_of(i), l, self.loc_of(k), d);
        assert(self.loc_to_id@.contains_key(loc_key(self.id_to_loc@[k]) as u16));
    }

    /// The location of a cell.
    pub fn loc(&self, id: Id) -> (r: Loc)
        requires
            self.wf(),
            (id as int) < self.len(),
        ensures
            r == self.loc_of(id as int),
    {
        self.id_to_loc[id as usize]
    }

    /// The cell at a location, allocated if it is new.
    pub fn id(&mut self, loc: Loc) -> (r: Id)
        requires
            old(self).wf(),
            loc_in_range(loc),
            old(self).has_loc(loc) || old(self).len() < 256,
        ensures
            final(self).wf(),
            final(self).extends(*old(self)),
            r != UNASSIGNED,
            (r as int) < final(self).len(),
            final(self).loc_of(r as int) == loc,
            final(self).id_at(loc) == r,
            old(self).has_loc(loc) ==> *final(self) == *old(self),
    {
        self.allocate(loc)
    }

    /// The six neighbor ids of a cell, `UNASSIGNED` where a neighbor has no cell yet.
    pub fn adjacent(&self, id: Id) -> (r: [Id; 6])
        requires
            self.wf(),
            (id as int) < self.len(),
        ensures
            forall|d: int| 0 <= d < 6 ==> #[trigger] r@[d] == self.adj(id as int, d),
    {
        self.nodes[id as usize].adj
    }

    /// The top tile of a cell, if any.
    pub fn get(&self, id: Id) -> (r: Option<&Tile>)
        requires
            self.wf(),
            (id as int) < self.len(),
        ensures
            r is Some ==> self.top(id as int) == Some(*r->0),
            r is Some <==> self.occupied(id as int),
    {
        self.nodes[id as usize].tile.as_ref()
    }

    /// Whether a cell holds a tile.
    pub fn is_occupied(&self, id: Id) -> (r: bool)
        requires
            self.wf(),
            (id as int) < self.len(),
        ensures
            r == self.occupied(id as int),
    {
        self.nodes[id as usize].tile.is_some()
    }

    /// Every neighbor of cell `id` has a cell already.
    pub open spec fn surrounded_already(self, id: int) -> bool {
        forall|d: int| 0 <= d < 6 ==> #[trigger] self.adj(id, d) != UNASSIGNED
    }

    /// The missing neighbors of cell `id`, if any, can be allocated: they are in range
    /// and there is room for all six.
    pub open spec fn surroundable(self, id: int) -> bool {
        self.surrounded_already(id) || (loc_inner(self.loc_of(id)) && self.len() + 6 <= 256)
    }

    /// Allocates every missing neighbor of a cell that is about to be occupied, so
    /// that empty cells know all the tiles around them.
    fn alloc_surrounding(&mut self, id: Id)
        requires
            old(self).wf(),
            1 <= id,
            (id as int) < old(self).len(),
            old(self).surroundable(id as int),
        ensures
            final(self).wf(),
            final(self).extends(*old(self)),
            final(self).len() <= old(self).len() + 6,
            old(self).surrounded_already(id as int) ==> final(self).len() == old(self).len(),
            forall|d: int| 0 <= d < 6 ==> #[trigger] final(self).adj(id as int, d) != UNASSIGNED,
    {
        let ghost o = *self;
        let nbrs = adjacent(self.loc(id));
        let mut i: usize = 0;
        while i < 6
            invariant
                0 <= i <= 6,
                o.wf(),
                self.wf(),
                self.extends(o),
                1 <= id,
                (id as int) < o.len(),
                self.len() <= o.len() + i,
                o.surroundable(id as int),
                o.surrounded_already(id as int) ==> self.len() == o.len(),
                forall|d: int| 0 <= d < 6 ==> is_neighbor(o.loc_of(id as int), #[trigger] nbrs@[d], d),
                forall|d: int| 0 <= d < i ==> #[trigger] self.adj(id as int, d) != UNASSIGNED,
            decreases 6 - i,
        {
            if self.nodes[id as usize].adj[i] == UNASSIGNED {
                proof {
                    if o.adj(id as int, i as int) != UNASSIGNED {
                        assert(self.adj(id as int, i as int) == o.adj(id as int, i as int));
                    }
                    assert(!o.surrounded_already(id as int));
                }
                let ghost before = *self;
                self.allocate(nbrs[i]);
                proof {
                    Board::lemma_extends_trans(o, before, *self);
                    let p = neighbor_of(self.loc_of(id as int), i as int);
                    assert(self.loc_of(id as int) == o.loc_of(id as int));
                    assert(pos_key(p) == loc_key(nbrs@[i as int]));
                    assert forall|d: int| 0 <= d < i implies #[trigger] self.adj(id as int, d)
                        != UNASSIGNED by {
                        assert(before.adj(id as int, d) != UNASSIGNED);
                    }
                }
            }
            i += 1;
        }
    }
}

impl Board {
    /// `self` differs from `old` only in the stack of cell `id` (and in cells it added).
    pub open spec fn same_but(self, old: Board, id: int) -> bool {
        &&& self.arena_grows(old)
        &&& forall|i: int|
            0 <= i < old.len() && i != id ==> #[trigger] self.nodes@[i].tile == old.nodes@[i].tile
        &&& self.remaining == old.remaining
        &&& self.move_num == old.move_num
        &&& self.zobrist_history@ == old.zobrist_history@
    }

    /// Puts a tile of `bug` and `color` on cell `id`, on top of whatever is there.
    pub fn insert(&mut self, id: Id, bug: Bug, color: Color)
        requires
            old(self).wf(),
            1 <= id,
            (id as int) < old(self).len(),
            old(self).stack(id as int).len() < MAX_STACK,
            !old(self).occupied(id as int) ==> old(self).surroundable(id as int),
        ensures
            final(self).wf(),
            final(self).same_but(*old(self), id as int),
            old(self).occupied(id as int) ==> final(self).len() == old(self).len(),
            final(self).len() <= old(self).len() + 6,
            final(self).stack(id as int) == old(self).stack(id as int).push((bug, color)),
            final(self).zobrist_hash == old(self).zobrist_hash ^ zob(
                id,
                bug.spec_index(),
                color.spec_index(),
                old(self).stack(id as int).len(),
            ),
            final(self).queens@ == if bug == Bug::Queen {
                old(self).queens@.update(color.spec_index() as int, id)
            } else {
                old(self).queens@
            },
    {
        let ghost o = *self;
        if self.nodes[id as usize].tile.is_none() {
            self.alloc_surrounding(id);
        }
        let ghost mid = *self;
        let prev = self.nodes[id as usize].tile.take();
        let underneath = match prev {
            Some(p) => Some(Box::new(p)),
            None => None,
        };
        let tile = Tile { bug, color, underneath };
        proof {
            assert(tile.stack() =~= o.stack(id as int).push((bug, color)));
        }
        let h = tile.height();
        self.zobrist_hash = self.zobrist_hash ^ zobrist(id, bug.index(), color.index(), h);
        self.nodes[id as usize].tile = Some(tile);
        if bug == Bug::Queen {
            self.queens[color.index() as usize] = id;
        }
        proof {
            let s = o.stack(id as int);
            let z = zob(id, bug.spec_index(), color.spec_index(), s.len());
            assert(s.push((bug, color)).drop_last() =~= s);
            assert(mid.stack(id as int) == s);
            lemma_hash_change(mid.nodes@, self.nodes@, self.len(), id as int);
            let hm = mid.zobrist_hash;
            let a = stack_hash(id as int, s);
            assert(hm ^ a ^ (a ^ z) == hm ^ z) by (bit_vector);
            assert forall|i: int, d: int|
                0 <= i < self.len() && self.occupied(i) && 0 <= d < 6 implies #[trigger] self.adj(
                i,
                d,
            ) != UNASSIGNED by {
                assert(self.nodes@[i].adj == mid.nodes@[i].adj);
                assert(self.adj(i, d) == mid.adj(i, d));
                if i != id {
                    assert(mid.occupied(i));
                } else if o.occupied(i) {
                    assert(o.adj(i, d) != UNASSIGNED);
                }
            }
            assert forall|i: int| 0 <= i < self.len() implies (#[trigger] self.stack(i)).len()
                <= MAX_STACK by {
                if i != id {
                    assert(self.stack(i) == mid.stack(i));
                }
            }
            assert forall|i: int| o.len() <= i < self.len() implies !#[trigger] self.occupied(i) by {
                assert(!mid.occupied(i));
            }
            assert forall|i: int, d: int| 0 <= i < self.len() && 0 <= d < 6 implies #[trigger] self.adj(
                i,
                d,
            ) == mid.adj(i, d) by {
                assert(self.nodes@[i].adj == mid.nodes@[i].adj);
            }
            Board::lemma_index_same(mid, *self);
            assert(self.index_wf());
            assert(self.links_wf());
            assert(mid.extends(o));
            assert forall|i: int, d: int|
                0 <= i < o.len() && 0 <= d < 6 && o.adj(i, d) != UNASSIGNED implies #[trigger] self.adj(
                i,
                d,
            ) == o.adj(i, d) by {
                assert(mid.adj(i, d) == o.adj(i, d));
            }
            assert(self.arena_grows(o));
        }
    }

    /// Lifts the top tile off cell `id` and returns it; the tile below, if any, is
    /// uncovered.
    pub fn remove(&mut self, id: Id) -> (r: Tile)
        requires
            old(self).wf(),
            (id as int) < old(self).len(),
            old(self).occupied(id as int),
        ensures
            final(self).wf(),
            final(self).same_but(*old(self), id as int),
            final(self).len() == old(self).len(),
            final(self).queens == old(self).queens,
            final(self).stack(id as int) == old(self).stack(id as int).drop_last(),
            (r.bug, r.color) == old(self).stack(id as int).last(),
            r.underneath is None,
            final(self).zobrist_hash == old(self).zobrist_hash ^ zob(
                id,
                r.bug.spec_index(),
                r.color.spec_index(),
                (old(self).stack(id as int).len() - 1) as nat,
            ),
    {
        let ghost o = *self;
        let prev = self.nodes[id as usize].tile.take();
        let mut tile = prev.unwrap();
        proof {
            tile.lemma_stack_nonempty();
            assert(o.stack(id as int) == tile.stack());
            assert(o.stack(id as int).len() <= MAX_STACK);
        }
        let h = tile.height();
        self.zobrist_hash = self.zobrist_hash ^ zobrist(id, tile.bug.index(), tile.color.index(), h);
        let ghost full = tile;
        if let Some(stack) = tile.underneath.take() {
            self.nodes[id as usize].tile = Some(*stack);
        }
        proof {
            let s = o.stack(id as int);
            assert(stack_of(self.nodes@[id as int].tile) =~= s.drop_last());
            let z = zob(id, tile.bug.spec_index(), tile.color.spec_index(), (s.len() - 1) as nat);
            lemma_hash_change(o.nodes@, self.nodes@, self.len(), id as int);
            let ho = o.zobrist_hash;
            let a = stack_hash(id as int, s.drop_last());
            assert(ho ^ (a ^ z) ^ a == ho ^ z) by (bit_vector);
            assert forall|i: int, d: int|
                0 <= i < self.len() && self.occupied(i) && 0 <= d < 6 implies #[trigger] self.adj(
                i,
                d,
            ) != UNASSIGNED by {
                assert(self.nodes@[i].adj == o.nodes@[i].adj);
                assert(self.adj(i, d) == o.adj(i, d));
                assert(o.occupied(i));
            }
            assert forall|i: int, d: int| 0 <= i < self.len() && 0 <= d < 6 implies #[trigger] self.adj(
                i,
                d,
            ) == o.adj(i, d) by {
                assert(self.nodes@[i].adj == o.nodes@[i].adj);
            }
            assert(self.index_wf());
            assert(self.links_wf());
            assert(self.arena_grows(o));
            assert forall|i: int| 0 <= i < self.len() implies (#[trigger] self.stack(i)).len()
                <= MAX_STACK by {
                if i != id {
                    assert(self.stack(i) == o.stack(i));
                }
            }
        }
        tile
    }
}

/// A move: a tile placed from the reserve, a tile moved between cells, or a pass.
#[derive(Copy, Clone, Debug, PartialEq, Eq, Structural, PartialOrd, Ord, Hash)]
pub enum Move {
    Place(Id, Bug),
    Movement(Id, Id),
    Pass,
}

/// Number of directions `d < n` in which cell `id` has an occupied neighbor.
pub open spec fn occupied_nbrs(b: Board, id: int, n: int) -> nat
    decreases n,
{
    if n <= 0 {
        0
    } else {
        occupied_nbrs(b, id, n - 1) + if b.occupied(b.adj(id, n - 1) as int) {
            1nat
        } else {
            0nat
        }
    }
}

pub proof fn lemma_occupied_nbrs_bound(b: Board, id: int, n: int)
    requires
        0 <= n,
    ensures
        occupied_nbrs(b, id, n) <= n,
    decreases n,
{
    if n > 0 {
        lemma_occupied_nbrs_bound(b, id, n - 1);
    }
}

impl Board {
    /// Number of occupied neighbors around the queen of color index `c`.
    pub open spec fn surrounded(self, c: int) -> nat {
        occupied_nbrs(self, self.queens[c] as int, 6)
    }

    /// The side to move: Black on even move numbers.
    pub fn to_move(&self) -> (r: Color)
        ensures
            r == self.spec_to_move(),
    {
        if self.move_num % 2 == 0 {
            Color::Black
        } else {
            Color::White
        }
    }

    /// The reserve of the side to move, indexed by bug.
    pub fn get_remaining(&self) -> (r: [u8; 5])
        ensures
            forall|b: Bug| #[trigger] r[b.spec_index() as int] == self.spec_remaining(
                self.spec_to_move(),
                b,
            ),
    {
        self.remaining[self.to_move().index() as usize]
    }

    /// The reserve of the side to move, to be updated in place.
    pub fn mut_remaining(&mut self) -> (r: &mut [u8; 5])
        ensures
            *r == old(self).remaining[old(self).spec_to_move().spec_index() as int],
            final(self).remaining@ == old(self).remaining@.update(
                old(self).spec_to_move().spec_index() as int,
                *final(r),
            ),
            final(self).nodes == old(self).nodes,
            final(self).id_to_loc == old(self).id_to_loc,
            final(self).loc_to_id == old(self).loc_to_id,
            final(self).queens == old(self).queens,
            final(self).move_num == old(self).move_num,
            final(self).zobrist_hash == old(self).zobrist_hash,
            final(self).zobrist_history == old(self).zobrist_history,
    {
        let c = self.to_move().index() as usize;
        &mut self.remaining[c]
    }

    /// Each bug with the number of its tiles that the side to move has left.
    pub fn get_available_bugs(&self) -> (r: [(Bug, u8); 5])
        ensures
            r@ == seq![
                (Bug::Queen, self.spec_remaining(self.spec_to_move(), Bug::Queen)),
                (Bug::Grasshopper, self.spec_remaining(self.spec_to_move(), Bug::Grasshopper)),
                (Bug::Spider, self.spec_remaining(self.spec_to_move(), Bug::Spider)),
                (Bug::Ant, self.spec_remaining(self.spec_to_move(), Bug::Ant)),
                (Bug::Beetle, self.spec_remaining(self.spec_to_move(), Bug::Beetle)),
            ],
    {
        let remaining = self.get_remaining();
        let r = [
            (Bug::Queen, remaining[0]),
            (Bug::Grasshopper, remaining[1]),
            (Bug::Spider, remaining[2]),
            (Bug::Ant, remaining[3]),
            (Bug::Beetle, remaining[4]),
        ];
        proof {
            assert(remaining[Bug::Queen.spec_index() as int] == remaining[0]);
            assert(remaining[Bug::Grasshopper.spec_index() as int] == remaining[1]);
            assert(remaining[Bug::Spider.spec_index() as int] == remaining[2]);
            assert(remaining[Bug::Ant.spec_index() as int] == remaining[3]);
            assert(remaining[Bug::Beetle.spec_index() as int] == remaining[4]);
            assert(r@ =~= seq![
                (Bug::Queen, self.spec_remaining(self.spec_to_move(), Bug::Queen)),
                (Bug::Grasshopper, self.spec_remaining(self.spec_to_move(), Bug::Grasshopper)),
                (Bug::Spider, self.spec_remaining(self.spec_to_move(), Bug::Spider)),
                (Bug::Ant, self.spec_remaining(self.spec_to_move(), Bug::Ant)),
                (Bug::Beetle, self.spec_remaining(self.spec_to_move(), Bug::Beetle)),
            ]);
        }
        r
    }

    /// Whether the side to move must place its queen now: past the sixth half-move
    /// with the queen still in reserve.
    pub open spec fn spec_queen_required(self) -> bool {
        self.move_num > 5 && self.spec_remaining(self.spec_to_move(), Bug::Queen) > 0
    }

    pub fn queen_required(&self) -> (r: bool)
        ensures
            r == self.spec_queen_required(),
    {
        self.move_num > 5 && self.get_remaining()[0] > 0
    }

    /// For each color, the number of occupied cells around its queen (zero while the
    /// queen is unplaced).
    pub fn queens_surrounded(&self) -> (r: [usize; 2])
        requires
            self.wf(),
        ensures
            r[0] == self.surrounded(0),
            r[1] == self.surrounded(1),
    {
        let mut out: [usize; 2] = [0; 2];
        let mut i: usize = 0;
        while i < 2
            invariant
                self.wf(),
                0 <= i <= 2,
                forall|c: int| 0 <= c < i ==> out[c] == self.surrounded(c),
            decreases 2 - i,
        {
            let adj = self.adjacent(self.queens[i]);
            let mut count: usize = 0;
            let mut d: usize = 0;
            while d < 6
                invariant
                    self.wf(),
                    0 <= i < 2,
                    0 <= d <= 6,
                    forall|k: int| 0 <= k < 6 ==> #[trigger] adj@[k] == self.adj(
                        self.queens[i as int] as int,
                        k,
                    ),
                    count == occupied_nbrs(*self, self.queens[i as int] as int, d as int),
                    count <= d,
                decreases 6 - d,
            {
                if self.is_occupied(adj[d]) {
                    count += 1;
                }
                d += 1;
            }
            out[i] = count;
            i += 1;
        }
        out
    }
}

} // verus!
