//! Move generation: the sliding rule, the moves of each bug, articulation points of
//! the hive, and placements.

use vstd::prelude::*;

use crate::board::{lemma_occupied_nbrs_bound, occupied_nbrs, Board, Bug, Color, Id, Move, Tile, UNASSIGNED};
use crate::hex::{is_neighbor, loc_key, lemma_loc_key_injective, lemma_neighbor_opposite, lemma_neighbor_unique, Loc};

verus! {

impl Board {
    /// Neighbor `d` of `id` is occupied by a tile other than the one moving from `origin`.
    pub open spec fn blocks(self, origin: int, id: int, d: int) -> bool {
        let n = self.adj(id, d) as int;
        self.occupied(n) && n != origin
    }

    /// A tile moving from `origin` can slide from `id` into its neighbor `d`: that
    /// cell is free, and exactly one of the two cells flanking the gap is occupied.
    pub open spec fn slide_dir(self, origin: int, id: int, d: int) -> bool {
        !self.blocks(origin, id, d) && (self.blocks(origin, id, (d + 5) % 6) != self.blocks(
            origin,
            id,
            (d + 1) % 6,
        ))
    }

    /// The slide targets among the first `n` directions of `id`, in direction order.
    pub open spec fn slides_upto(self, origin: int, id: int, n: int) -> Seq<Id>
        decreases n,
    {
        if n <= 0 {
            Seq::empty()
        } else if self.slide_dir(origin, id, n - 1) {
            self.slides_upto(origin, id, n - 1).push(self.adj(id, n - 1))
        } else {
            self.slides_upto(origin, id, n - 1)
        }
    }

    /// The cells a tile moving from `origin` can slide into from `id`.
    pub open spec fn slideable(self, origin: int, id: int) -> Seq<Id> {
        self.slides_upto(origin, id, 6)
    }

    pub proof fn lemma_slides_monotone(self, origin: int, id: int, k: int, m: int)
        requires
            0 <= k <= m,
        ensures
            self.slides_upto(origin, id, k).len() <= self.slides_upto(origin, id, m).len(),
        decreases m - k,
    {
        if k < m {
            self.lemma_slides_monotone(origin, id, k, m - 1);
        }
    }

    /// Slide exits are cells of the board.
    pub proof fn lemma_slides_valid(self, origin: int, id: int, n: int)
        requires
            self.wf(),
            0 <= id < self.len(),
            n <= 6,
        ensures
            forall|j: int|
                0 <= j < self.slides_upto(origin, id, n).len() ==> (#[trigger] self.slides_upto(
                    origin,
                    id,
                    n,
                )[j] as int) < self.len(),
        decreases n,
    {
        if n > 0 {
            self.lemma_slides_valid(origin, id, n - 1);
            let prev = self.slides_upto(origin, id, n - 1);
            let x = self.adj(id, n - 1);
            assert((x as int) < self.len());
            if self.slide_dir(origin, id, n - 1) {
                assert forall|j: int| 0 <= j < prev.len() + 1 implies (#[trigger] prev.push(x)[j] as int)
                    < self.len() by {
                    if j < prev.len() {
                        assert(prev.push(x)[j] == prev[j]);
                    }
                }
            }
        }
    }

    /// A cell has at most four slide exits.
    pub proof fn lemma_slides_at_most_four(self, origin: int, id: int)
        ensures
            self.slideable(origin, id).len() <= 4,
    {
        reveal_with_fuel(Board::slides_upto, 7);
        let b0 = self.blocks(origin, id, 0);
        let b1 = self.blocks(origin, id, 1);
        let b2 = self.blocks(origin, id, 2);
        let b3 = self.blocks(origin, id, 3);
        let b4 = self.blocks(origin, id, 4);
        let b5 = self.blocks(origin, id, 5);
        assert((0int + 5) % 6 == 5 && (0int + 1) % 6 == 1);
        assert((1int + 5) % 6 == 0 && (1int + 1) % 6 == 2);
        assert((2int + 5) % 6 == 1 && (2int + 1) % 6 == 3);
        assert((3int + 5) % 6 == 2 && (3int + 1) % 6 == 4);
        assert((4int + 5) % 6 == 3 && (4int + 1) % 6 == 5);
        assert((5int + 5) % 6 == 4 && (5int + 1) % 6 == 0);
    }

    /// The targets of `slideable(origin, id)`, first to last, padded with `None`.
    ///
    /// The six neighbors of `id` are read as occupied or free, counting the cell of the
    /// moving tile as free; a neighbor is an exit when it is free and exactly one of
    /// its two flanking neighbors is occupied.
    pub fn slideable_adjacent(&self, origin: Id, id: Id) -> (r: [Option<Id>; 4])
        requires
            self.wf(),
            (origin as int) < self.len(),
            (id as int) < self.len(),
        ensures
            forall|k: int|
                0 <= k < 4 ==> #[trigger] r@[k] == if k < self.slideable(
                    origin as int,
                    id as int,
                ).len() {
                    Some(self.slideable(origin as int, id as int)[k])
                } else {
                    None
                },
    {
        let neighbors = self.adjacent(id);
        let mut occupied: [bool; 6] = [false; 6];
        let mut i: usize = 0;
        while i < 6
            invariant
                self.wf(),
                (id as int) < self.len(),
                0 <= i <= 6,
                forall|d: int| 0 <= d < 6 ==> #[trigger] neighbors@[d] == self.adj(id as int, d),
                forall|d: int|
                    0 <= d < i ==> #[trigger] occupied@[d] == self.blocks(
                        origin as int,
                        id as int,
                        d,
                    ),
            decreases 6 - i,
        {
            occupied[i] = self.is_occupied(neighbors[i]) && neighbors[i] != origin;
            i += 1;
        }
        proof {
            self.lemma_slides_at_most_four(origin as int, id as int);
        }
        let mut out: [Option<Id>; 4] = [None; 4];
        let mut n: usize = 0;
        let mut d: usize = 0;
        while d < 6
            invariant
                0 <= d <= 6,
                forall|k: int| 0 <= k < 6 ==> #[trigger] neighbors@[k] == self.adj(id as int, k),
                forall|k: int|
                    0 <= k < 6 ==> #[trigger] occupied@[k] == self.blocks(
                        origin as int,
                        id as int,
                        k,
                    ),
                n == self.slides_upto(origin as int, id as int, d as int).len(),
                self.slideable(origin as int, id as int).len() <= 4,
                forall|k: int|
                    0 <= k < 4 ==> #[trigger] out@[k] == if k < n {
                        Some(self.slides_upto(origin as int, id as int, d as int)[k])
                    } else {
                        None
                    },
            decreases 6 - d,
        {
            if !occupied[d] && (occupied[(d + 5) % 6] != occupied[(d + 1) % 6]) {
                proof {
                    self.lemma_slides_monotone(origin as int, id as int, d as int + 1, 6);
                }
                out[n] = Some(neighbors[d]);
                n += 1;
            }
            d += 1;
        }
        out
    }

    /// The moves that slide the tile on `id` one step: the queen's moves.
    pub open spec fn walk1_moves(self, id: int) -> Seq<Move> {
        self.slideable(id, id).map_values(|t: Id| Move::Movement(id as u8, t))
    }

    /// The moves onto the occupied neighbors among the first `n` directions of `id`.
    pub open spec fn climbs_upto(self, id: int, n: int) -> Seq<Move>
        decreases n,
    {
        if n <= 0 {
            Seq::empty()
        } else if self.occupied(self.adj(id, n - 1) as int) {
            self.climbs_upto(id, n - 1).push(Move::Movement(id as u8, self.adj(id, n - 1)))
        } else {
            self.climbs_upto(id, n - 1)
        }
    }

    /// The moves that climb from `id` onto an occupied neighbor.
    pub open spec fn walk_up_moves(self, id: int) -> Seq<Move> {
        self.climbs_upto(id, 6)
    }

    /// The moves from `id` into each of its six neighbors, in direction order.
    pub open spec fn stack_walk_moves(self, id: int) -> Seq<Move> {
        Seq::new(6, |d: int| Move::Movement(id as u8, self.adj(id, d)))
    }

    /// Queen moves: one slide step.
    pub fn generate_walk1(&self, id: Id, moves: &mut Vec<Move>)
        requires
            self.wf(),
            (id as int) < self.len(),
        ensures
            final(moves)@ == old(moves)@ + self.walk1_moves(id as int),
    {
        let targets = self.slideable_adjacent(id, id);
        let ghost s = self.slideable(id as int, id as int);
        let ghost start = moves@;
        proof {
            self.lemma_slides_at_most_four(id as int, id as int);
        }
        let mut k: usize = 0;
        while k < 4
            invariant
                0 <= k <= 4,
                s.len() <= 4,
                forall|j: int|
                    0 <= j < 4 ==> #[trigger] targets@[j] == if j < s.len() {
                        Some(s[j])
                    } else {
                        None
                    },
                moves@ == start + s.take(if k < s.len() {
                    k as int
                } else {
                    s.len() as int
                }).map_values(|t: Id| Move::Movement(id as u8, t)),
            decreases 4 - k,
        {
            if let Some(node) = targets[k] {
                moves.push(Move::Movement(id, node));
                proof {
                    assert(s.take(k as int + 1) =~= s.take(k as int).push(node));
                    assert(s.take(k as int + 1).map_values(|t: Id| Move::Movement(id as u8, t))
                        =~= s.take(k as int).map_values(|t: Id| Move::Movement(id as u8, t)).push(
                        Move::Movement(id, node),
                    ));
                }
            }
            k += 1;
        }
        proof {
            assert(s.take(s.len() as int) =~= s);
        }
    }

    /// Beetle climbs: a step onto each occupied neighbor.
    pub fn generate_walk_up(&self, id: Id, moves: &mut Vec<Move>)
        requires
            self.wf(),
            (id as int) < self.len(),
        ensures
            final(moves)@ == old(moves)@ + self.walk_up_moves(id as int),
    {
        let adj = self.adjacent(id);
        let ghost start = moves@;
        let mut d: usize = 0;
        while d < 6
            invariant
                self.wf(),
                (id as int) < self.len(),
                0 <= d <= 6,
                forall|k: int| 0 <= k < 6 ==> #[trigger] adj@[k] == self.adj(id as int, k),
                moves@ == start + self.climbs_upto(id as int, d as int),
            decreases 6 - d,
        {
            if self.is_occupied(adj[d]) {
                moves.push(Move::Movement(id, adj[d]));
                proof {
                    assert(start + self.climbs_upto(id as int, d as int + 1) =~= (start
                        + self.climbs_upto(id as int, d as int)).push(Move::Movement(id, adj[d as int])));
                }
            }
            d += 1;
        }
    }

    /// A tile on top of a stack may step to any of its six neighbors.
    pub fn generate_stack_walking(&self, id: Id, moves: &mut Vec<Move>)
        requires
            self.wf(),
            (id as int) < self.len(),
        ensures
            final(moves)@ == old(moves)@ + self.stack_walk_moves(id as int),
    {
        let adj = self.adjacent(id);
        let ghost start = moves@;
        let mut d: usize = 0;
        while d < 6
            invariant
                0 <= d <= 6,
                forall|k: int| 0 <= k < 6 ==> #[trigger] adj@[k] == self.adj(id as int, k),
                moves@ == start + self.stack_walk_moves(id as int).take(d as int),
            decreases 6 - d,
        {
            moves.push(Move::Movement(id, adj[d]));
            proof {
                assert(self.stack_walk_moves(id as int).take(d as int + 1) =~= self.stack_walk_moves(
                    id as int,
                ).take(d as int).push(Move::Movement(id, adj[d as int])));
            }
            d += 1;
        }
        proof {
            assert(self.stack_walk_moves(id as int).take(6) =~= self.stack_walk_moves(id as int));
        }
    }
}

/// A quantity that drops by one with each step in direction `d`.
pub open spec fn line_measure(loc: Loc, d: int) -> int {
    if d == 0 || d == 5 {
        loc.0 + 128
    } else if d == 1 {
        loc.1 + 128
    } else if d == 2 || d == 3 {
        127 - loc.0
    } else {
        127 - loc.1
    }
}

impl Board {
    /// Where a straight walk from `c` in direction `d` over occupied cells stops:
    /// the first free cell, or wherever `fuel` steps end.
    pub open spec fn line_end(self, c: int, d: int, fuel: nat) -> int
        decreases fuel,
    {
        if !self.occupied(c) || fuel == 0 {
            c
        } else {
            self.line_end(self.adj(c, d) as int, d, (fuel - 1) as nat)
        }
    }

    /// The grasshopper jumps from `id` over the first `n` directions.
    pub open spec fn jumps_upto(self, id: int, n: int) -> Seq<Move>
        decreases n,
    {
        if n <= 0 {
            Seq::empty()
        } else if self.occupied(id) && self.occupied(self.adj(id, n - 1) as int) {
            self.jumps_upto(id, n - 1).push(
                Move::Movement(id as u8, self.line_end(id, n - 1, 256) as u8),
            )
        } else {
            self.jumps_upto(id, n - 1)
        }
    }

    pub open spec fn jump_moves(self, id: int) -> Seq<Move> {
        self.jumps_upto(id, 6)
    }

    /// The links between two occupied cells go both ways.
    pub proof fn lemma_link_back(self, c: int, d: int)
        requires
            self.wf(),
            0 <= c < self.len(),
            0 <= d < 6,
            self.occupied(c),
            self.occupied(self.adj(c, d) as int),
        ensures
            self.adj(self.adj(c, d) as int, (d + 3) % 6) as int == c,
    {
        let a = self.adj(c, d) as int;
        let e = (d + 3) % 6;
        assert(c != 0);
        assert(a != 0);
        assert(is_neighbor(self.loc_of(c), self.loc_of(a), d));
        lemma_neighbor_opposite(self.loc_of(c), self.loc_of(a), d);
        let k = self.adj(a, e) as int;
        assert(k != 0 && k < self.len());
        assert(is_neighbor(self.loc_of(a), self.loc_of(k), e));
        lemma_neighbor_unique(self.loc_of(a), self.loc_of(c), self.loc_of(k), e);
        assert(self.loc_to_id@.contains_key(loc_key(self.id_to_loc@[c]) as u16));
        assert(self.loc_to_id@.contains_key(loc_key(self.id_to_loc@[k]) as u16));
        assert(self.loc_to_id@[loc_key(self.id_to_loc@[c]) as u16] == c);
        assert(self.loc_to_id@[loc_key(self.id_to_loc@[k]) as u16] == k);
    }

    pub proof fn lemma_step(self, c: int, d: int)
        requires
            self.wf(),
            0 <= c < self.len(),
            0 <= d < 6,
            self.occupied(c),
        ensures
            self.adj(c, d) != UNASSIGNED,
            (self.adj(c, d) as int) < self.len(),
            line_measure(self.loc_of(self.adj(c, d) as int), d) == line_measure(self.loc_of(c), d)
                - 1,
    {
        assert(self.adj(c, d) != UNASSIGNED);
        assert(is_neighbor(self.loc_of(c), self.loc_of(self.adj(c, d) as int), d));
    }

    /// A straight walk over occupied cells ends on a free cell.
    pub proof fn lemma_line_end_free(self, c: int, d: int, fuel: nat)
        requires
            self.wf(),
            0 <= c < self.len(),
            0 <= d < 6,
            line_measure(self.loc_of(c), d) < fuel,
        ensures
            !self.occupied(self.line_end(c, d, fuel)),
            0 <= self.line_end(c, d, fuel) < self.len(),
        decreases fuel,
    {
        if self.occupied(c) {
            self.lemma_step(c, d);
            self.lemma_line_end_free(self.adj(c, d) as int, d, (fuel - 1) as nat);
        }
    }

    /// The cell `j` steps from `c` in direction `d`, following the links.
    pub open spec fn line_step(self, c: int, d: int, j: nat) -> int
        decreases j,
    {
        if j == 0 {
            c
        } else {
            self.line_step(self.adj(c, d) as int, d, (j - 1) as nat)
        }
    }

    /// A straight walk ends `j` steps away, over occupied cells only.
    pub proof fn lemma_line_end_steps(self, c: int, d: int, fuel: nat) -> (j: nat)
        requires
            self.wf(),
            0 <= c < self.len(),
            0 <= d < 6,
            line_measure(self.loc_of(c), d) < fuel,
        ensures
            self.line_end(c, d, fuel) == self.line_step(c, d, j),
            forall|i: nat| i < j ==> #[trigger] self.occupied(self.line_step(c, d, i)),
        decreases fuel,
    {
        if !self.occupied(c) {
            0
        } else {
            self.lemma_step(c, d);
            let a = self.adj(c, d) as int;
            let k = self.lemma_line_end_steps(a, d, (fuel - 1) as nat);
            assert forall|i: nat| i < k + 1 implies #[trigger] self.occupied(self.line_step(c, d, i)) by {
                if i > 0 {
                    assert(self.line_step(c, d, i) == self.line_step(a, d, (i - 1) as nat));
                }
            }
            k + 1
        }
    }

    /// Grasshopper targets: for every direction whose neighbor is occupied, the jump
    /// goes in a straight line over occupied cells only and lands on the first free
    /// cell, at least two steps away.
    pub proof fn lemma_jump_targets(self, id: int, d: int)
        requires
            self.wf(),
            0 <= id < self.len(),
            0 <= d < 6,
            self.occupied(id),
            self.occupied(self.adj(id, d) as int),
        ensures
            !self.occupied(self.line_end(id, d, 256)),
            exists|j: nat|
                j >= 2 && self.line_end(id, d, 256) == self.line_step(id, d, j) && forall|i: nat|
                    i < j ==> #[trigger] self.occupied(self.line_step(id, d, i)),
    {
        self.lemma_step(id, d);
        self.lemma_line_end_free(id, d, 256);
        let j = self.lemma_line_end_steps(id, d, 256);
        assert(self.line_step(id, d, 1) == self.line_step(self.adj(id, d) as int, d, 0));
        if j < 2 {
            assert(self.occupied(self.line_step(id, d, 0)));
            assert(j != 0);
            assert(self.line_end(id, d, 256) == self.line_step(id, d, 1));
        }
    }

    /// Grasshopper moves: a jump over each straight line of adjacent tiles.
    pub fn generate_jumps(&self, id: Id, moves: &mut Vec<Move>)
        requires
            self.wf(),
            (id as int) < self.len(),
        ensures
            final(moves)@ == old(moves)@ + self.jump_moves(id as int),
    {
        let ghost start = moves@;
        let mut dir: usize = 0;
        while dir < 6
            invariant
                self.wf(),
                (id as int) < self.len(),
                0 <= dir <= 6,
                moves@ == start + self.jumps_upto(id as int, dir as int),
            decreases 6 - dir,
        {
            let mut jump: Id = id;
            let mut dist: u32 = 0;
            while self.is_occupied(jump)
                invariant
                    self.wf(),
                    (id as int) < self.len(),
                    (jump as int) < self.len(),
                    0 <= dir < 6,
                    dist <= 256,
                    self.line_end(jump as int, dir as int, (256 - dist) as nat) == self.line_end(
                        id as int,
                        dir as int,
                        256,
                    ),
                    dist == 0 ==> jump == id,
                    dist >= 1 ==> self.occupied(id as int) && dist + line_measure(
                        self.loc_of(jump as int),
                        dir as int,
                    ) == line_measure(self.loc_of(id as int), dir as int),
                    dist == 1 ==> jump == self.adj(id as int, dir as int),
                    dist >= 2 ==> self.occupied(self.adj(id as int, dir as int) as int),
                decreases line_measure(self.loc_of(jump as int), dir as int),
            {
                proof {
                    self.lemma_step(jump as int, dir as int);
                    if dist >= 1 {
                        assert(line_measure(self.loc_of(jump as int), dir as int) >= 1);
                    }
                    assert(dist < 256);
                }
                jump = self.nodes[jump as usize].adj[dir];
                dist += 1;
            }
            if dist > 1 {
                moves.push(Move::Movement(id, jump));
            }
            proof {
                assert(self.line_end(jump as int, dir as int, (256 - dist) as nat) == jump as int);
            }
            dir += 1;
        }
    }
}

impl Board {
    /// Spider paths `o, a, b, c`: the third steps from `b`, over the first `n` slide
    /// exits of `b`, that revisit none of the cells before.
    pub open spec fn spider3_upto(self, o: int, a: int, b: int, n: int) -> Seq<Move>
        decreases n,
    {
        if n <= 0 {
            Seq::empty()
        } else {
            let c = self.slideable(o, b)[n - 1] as int;
            self.spider3_upto(o, a, b, n - 1) + if c != o && c != a && c != b {
                seq![Move::Movement(o as u8, c as u8)]
            } else {
                Seq::empty()
            }
        }
    }

    /// Spider paths `o, a, b, c` over the first `n` slide exits `b` of `a`.
    pub open spec fn spider2_upto(self, o: int, a: int, n: int) -> Seq<Move>
        decreases n,
    {
        if n <= 0 {
            Seq::empty()
        } else {
            let b = self.slideable(o, a)[n - 1] as int;
            self.spider2_upto(o, a, n - 1) + if b != o && b != a {
                self.spider3_upto(o, a, b, self.slideable(o, b).len() as int)
            } else {
                Seq::empty()
            }
        }
    }

    /// Spider paths `o, a, b, c` over the first `n` slide exits `a` of `o`.
    pub open spec fn spider1_upto(self, o: int, n: int) -> Seq<Move>
        decreases n,
    {
        if n <= 0 {
            Seq::empty()
        } else {
            let a = self.slideable(o, o)[n - 1] as int;
            self.spider1_upto(o, n - 1) + if a != o {
                self.spider2_upto(o, a, self.slideable(o, a).len() as int)
            } else {
                Seq::empty()
            }
        }
    }

    /// Spider moves: the last cell of every path of exactly three slide steps from
    /// `o` that visits no cell twice, in depth-first order.
    pub open spec fn walk3_moves(self, o: int) -> Seq<Move> {
        self.spider1_upto(o, self.slideable(o, o).len() as int)
    }

    fn walk3_third(&self, o: Id, a: Id, b: Id, moves: &mut Vec<Move>)
        requires
            self.wf(),
            (o as int) < self.len(),
            (b as int) < self.len(),
        ensures
            final(moves)@ == old(moves)@ + self.spider3_upto(
                o as int,
                a as int,
                b as int,
                self.slideable(o as int, b as int).len() as int,
            ),
    {
        let targets = self.slideable_adjacent(o, b);
        let ghost s = self.slideable(o as int, b as int);
        let ghost start = moves@;
        proof {
            self.lemma_slides_at_most_four(o as int, b as int);
        }
        let mut k: usize = 0;
        while k < 4
            invariant
                0 <= k <= 4,
                s == self.slideable(o as int, b as int),
                s.len() <= 4,
                forall|j: int|
                    0 <= j < 4 ==> #[trigger] targets@[j] == if j < s.len() {
                        Some(s[j])
                    } else {
                        None
                    },
                moves@ == start + self.spider3_upto(
                    o as int,
                    a as int,
                    b as int,
                    if k < s.len() {
                        k as int
                    } else {
                        s.len() as int
                    },
                ),
            decreases 4 - k,
        {
            if let Some(c) = targets[k] {
                if c != o && c != a && c != b {
                    moves.push(Move::Movement(o, c));
                }
                proof {
                    assert(moves@ =~= start + self.spider3_upto(
                        o as int,
                        a as int,
                        b as int,
                        k as int + 1,
                    ));
                }
            }
            k += 1;
        }
    }

    fn walk3_second(&self, o: Id, a: Id, moves: &mut Vec<Move>)
        requires
            self.wf(),
            (o as int) < self.len(),
            (a as int) < self.len(),
        ensures
            final(moves)@ == old(moves)@ + self.spider2_upto(
                o as int,
                a as int,
                self.slideable(o as int, a as int).len() as int,
            ),
    {
        let targets = self.slideable_adjacent(o, a);
        let ghost s = self.slideable(o as int, a as int);
        let ghost start = moves@;
        proof {
            self.lemma_slides_at_most_four(o as int, a as int);
            self.lemma_slides_valid(o as int, a as int, 6);
        }
        let mut k: usize = 0;
        while k < 4
            invariant
                self.wf(),
                (o as int) < self.len(),
                (a as int) < self.len(),
                0 <= k <= 4,
                s == self.slideable(o as int, a as int),
                s.len() <= 4,
                forall|j: int| 0 <= j < s.len() ==> (#[trigger] s[j] as int) < self.len(),
                forall|j: int|
                    0 <= j < 4 ==> #[trigger] targets@[j] == if j < s.len() {
                        Some(s[j])
                    } else {
                        None
                    },
                moves@ == start + self.spider2_upto(
                    o as int,
                    a as int,
                    if k < s.len() {
                        k as int
                    } else {
                        s.len() as int
                    },
                ),
            decreases 4 - k,
        {
            if let Some(b) = targets[k] {
                let ghost before = moves@;
                if b != o && b != a {
                    self.walk3_third(o, a, b, moves);
                }
                proof {
                    assert(moves@ =~= start + self.spider2_upto(o as int, a as int, k as int + 1));
                }
            }
            k += 1;
        }
    }

    /// Spider moves from `orig`.
    pub fn generate_walk3(&self, orig: Id, moves: &mut Vec<Move>)
        requires
            self.wf(),
            (orig as int) < self.len(),
        ensures
            final(moves)@ == old(moves)@ + self.walk3_moves(orig as int),
    {
        let targets = self.slideable_adjacent(orig, orig);
        let ghost s = self.slideable(orig as int, orig as int);
        let ghost start = moves@;
        proof {
            self.lemma_slides_at_most_four(orig as int, orig as int);
            self.lemma_slides_valid(orig as int, orig as int, 6);
        }
        let mut k: usize = 0;
        while k < 4
            invariant
                self.wf(),
                (orig as int) < self.len(),
                0 <= k <= 4,
                s == self.slideable(orig as int, orig as int),
                s.len() <= 4,
                forall|j: int| 0 <= j < s.len() ==> (#[trigger] s[j] as int) < self.len(),
                forall|j: int|
                    0 <= j < 4 ==> #[trigger] targets@[j] == if j < s.len() {
                        Some(s[j])
                    } else {
                        None
                    },
                moves@ == start + self.spider1_upto(
                    orig as int,
                    if k < s.len() {
                        k as int
                    } else {
                        s.len() as int
                    },
                ),
            decreases 4 - k,
        {
            if let Some(a) = targets[k] {
                if a != orig {
                    self.walk3_second(orig, a, moves);
                }
                proof {
                    assert(moves@ =~= start + self.spider1_upto(orig as int, k as int + 1));
                }
            }
            k += 1;
        }
    }
}

/// A set of cell ids.
pub struct NodeSet {
    pub table: [bool; 256],
}

/// Number of ids below `n` not in the set.
pub open spec fn unset_count(t: Seq<bool>, n: int) -> nat
    decreases n,
{
    if n <= 0 {
        0
    } else {
        unset_count(t, n - 1) + if t[n - 1] {
            0nat
        } else {
            1nat
        }
    }
}

pub proof fn lemma_unset_count_set(t: Seq<bool>, i: int, n: int)
    requires
        0 <= i < n <= t.len(),
        !t[i],
    ensures
        unset_count(t.update(i, true), n) + 1 == unset_count(t, n),
    decreases n,
{
    if n - 1 > i {
        lemma_unset_count_set(t, i, n - 1);
    } else {
        lemma_unset_count_same(t, t.update(i, true), i);
    }
}

pub proof fn lemma_unset_count_same(t: Seq<bool>, u: Seq<bool>, n: int)
    requires
        0 <= n <= t.len(),
        n <= u.len(),
        forall|j: int| 0 <= j < n ==> t[j] == u[j],
    ensures
        unset_count(t, n) == unset_count(u, n),
    decreases n,
{
    if n > 0 {
        lemma_unset_count_same(t, u, n - 1);
    }
}

impl NodeSet {
    pub open spec fn contains(self, id: int) -> bool {
        self.table@[id]
    }

    /// The empty set.
    pub fn new() -> (r: NodeSet)
        ensures
            forall|i: int| 0 <= i < 256 ==> !#[trigger] r.contains(i),
    {
        NodeSet { table: [false; 256] }
    }

    /// Adds `id` to the set.
    pub fn set(&mut self, id: Id)
        ensures
            final(self).table@ == old(self).table@.update(id as int, true),
    {
        self.table[id as usize] = true;
    }

    /// Whether `id` is in the set.
    pub fn get(&self, id: Id) -> (r: bool)
        ensures
            r == self.contains(id as int),
    {
        self.table[id as usize]
    }
}

impl Board {
    /// `p` is a chain of slide steps of the tile moving from `o`, starting at `o`.
    pub open spec fn slide_path(self, o: Id, p: Seq<Id>) -> bool {
        &&& p.len() >= 1
        &&& p[0] == o
        &&& forall|i: int|
            0 <= i < p.len() - 1 ==> self.slideable(o as int, #[trigger] p[i] as int).contains(
                p[i + 1],
            )
    }

    /// Cell `x` can be reached by the tile on `o` through slide steps.
    pub open spec fn slide_reachable(self, o: Id, x: Id) -> bool {
        exists|p: Seq<Id>| self.slide_path(o, p) && p.last() == x
    }

    /// `t` lists the ant targets from `o`: distinct cells other than `o`, each
    /// reachable by sliding, and together with `o` closed under slide steps.
    pub open spec fn ant_targets(self, o: Id, t: Seq<Id>) -> bool {
        &&& t.no_duplicates()
        &&& forall|i: int| 0 <= i < t.len() ==> #[trigger] t[i] != o && self.slide_reachable(o, t[i])
        &&& forall|x: Id, y: Id|
            (x == o || t.contains(x)) && #[trigger] self.slideable(o as int, x as int).contains(y)
                ==> y == o || t.contains(y)
    }

    pub proof fn lemma_reach_step(self, o: Id, x: Id, y: Id)
        requires
            self.wf(),
            self.slide_reachable(o, x),
            (x as int) < self.len(),
            self.slideable(o as int, x as int).contains(y),
        ensures
            self.slide_reachable(o, y),
            (y as int) < self.len(),
    {
        self.lemma_slides_valid(o as int, x as int, 6);
        let p = choose|p: Seq<Id>| self.slide_path(o, p) && p.last() == x;
        let p2 = p.push(y);
        assert forall|j: int| 0 <= j < p2.len() - 1 implies self.slideable(
            o as int,
            #[trigger] p2[j] as int,
        ).contains(p2[j + 1]) by {
            if j < p.len() - 1 {
                assert(p2[j] == p[j] && p2[j + 1] == p[j + 1]);
            }
        }
        assert(p2.last() == y);
    }

    /// Appends the slide exits of `node` for the tile moving from `orig`.
    fn push_slides(&self, orig: Id, node: Id, queue: &mut Vec<Id>)
        requires
            self.wf(),
            (orig as int) < self.len(),
            (node as int) < self.len(),
        ensures
            final(queue)@ == old(queue)@ + self.slideable(orig as int, node as int),
    {
        let adj = self.slideable_adjacent(orig, node);
        let ghost s = self.slideable(orig as int, node as int);
        let ghost q0 = queue@;
        proof {
            self.lemma_slides_at_most_four(orig as int, node as int);
        }
        let mut k: usize = 0;
        while k < 4
            invariant
                0 <= k <= 4,
                s.len() <= 4,
                forall|j: int|
                    0 <= j < 4 ==> #[trigger] adj@[j] == if j < s.len() {
                        Some(s[j])
                    } else {
                        None
                    },
                queue@ == q0 + s.take(
                    if k < s.len() {
                        k as int
                    } else {
                        s.len() as int
                    },
                ),
            decreases 4 - k,
        {
            if let Some(next) = adj[k] {
                queue.push(next);
                proof {
                    assert(s.take(k as int + 1) =~= s.take(k as int).push(next));
                }
            }
            k += 1;
        }
        proof {
            assert(s.take(s.len() as int) =~= s);
        }
    }

    /// Every slide exit of a visited cell is visited or still waiting in `q`.
    #[verifier::opaque]
    pub open spec fn search_closed(self, o: Id, vis: Seq<bool>, q: Seq<Id>) -> bool {
        forall|x: Id, y: Id|
            vis[x as int] && #[trigger] self.slideable(o as int, x as int).contains(y) ==> vis[y as int]
                || q.contains(y)
    }

    proof fn lemma_search_skip(self, o: Id, vis: Seq<bool>, q: Seq<Id>)
        requires
            self.search_closed(o, vis, q),
            q.len() > 0,
            vis[q.last() as int],
        ensures
            self.search_closed(o, vis, q.drop_last()),
    {
        reveal(Board::search_closed);
        assert forall|x: Id, y: Id|
            vis[x as int] && #[trigger] self.slideable(o as int, x as int).contains(y) implies vis[y as int]
            || q.drop_last().contains(y) by {
            if !vis[y as int] {
                let j = choose|j: int| 0 <= j < q.len() && q[j] == y;
                assert(j != q.len() - 1);
                assert(q.drop_last()[j] == y);
            }
        }
    }

    proof fn lemma_search_visit(self, o: Id, vis: Seq<bool>, q: Seq<Id>)
        requires
            self.search_closed(o, vis, q),
            q.len() > 0,
            vis.len() == 256,
        ensures
            self.search_closed(
                o,
                vis.update(q.last() as int, true),
                q.drop_last() + self.slideable(o as int, q.last() as int),
            ),
    {
        reveal(Board::search_closed);
        let node = q.last();
        let v2 = vis.update(node as int, true);
        let s = self.slideable(o as int, node as int);
        let q2 = q.drop_last() + s;
        assert forall|x: Id, y: Id|
            v2[x as int] && #[trigger] self.slideable(o as int, x as int).contains(y) implies v2[y as int]
            || q2.contains(y) by {
            if x == node {
                let j = choose|j: int| 0 <= j < s.len() && s[j] == y;
                assert(q2[q.len() - 1 + j] == y);
            } else if !v2[y as int] {
                assert(vis[x as int]);
                let j = choose|j: int| 0 <= j < q.len() && q[j] == y;
                assert(j != q.len() - 1);
                assert(q2[j] == y);
            }
        }
    }

    proof fn lemma_search_done(self, o: Id, vis: Seq<bool>, x: Id, y: Id)
        requires
            self.search_closed(o, vis, Seq::empty()),
            vis[x as int],
            self.slideable(o as int, x as int).contains(y),
        ensures
            vis[y as int],
    {
        reveal(Board::search_closed);
    }

    /// The cells a depth-first search from `o` visits for the first time, in order,
    /// `o` itself left out: the search pops the last cell of `q`, skips it if `vis`
    /// holds it, and otherwise visits it and pushes its slide exits.
    pub open spec fn ant_run(self, o: Id, vis: Seq<bool>, q: Seq<Id>) -> Seq<Id>
        decreases unset_count(vis, 256), q.len(),
        via Self::ant_run_decreases
    {
        if q.len() == 0 || vis.len() != 256 {
            Seq::empty()
        } else {
            let node = q.last();
            if vis[node as int] {
                self.ant_run(o, vis, q.drop_last())
            } else {
                (if node != o {
                    seq![node]
                } else {
                    Seq::empty()
                }) + self.ant_run(
                    o,
                    vis.update(node as int, true),
                    q.drop_last() + self.slideable(o as int, node as int),
                )
            }
        }
    }

    #[via_fn]
    proof fn ant_run_decreases(self, o: Id, vis: Seq<bool>, q: Seq<Id>) {
        if q.len() != 0 && vis.len() == 256 && !vis[q.last() as int] {
            lemma_unset_count_set(vis, q.last() as int, 256);
        }
    }

    /// The ant targets from `o`, in the order the search finds them.
    pub open spec fn ant_order(self, o: Id) -> Seq<Id> {
        self.ant_run(o, Seq::new(256, |i: int| false), seq![o])
    }

    /// Ant moves: every cell the tile on `orig` can reach by any number of slides,
    /// in depth-first order.
    pub fn generate_walk_all(&self, orig: Id, moves: &mut Vec<Move>)
        requires
            self.wf(),
            (orig as int) < self.len(),
        ensures
            self.ant_targets(orig, self.ant_order(orig)),
            final(moves)@ == old(moves)@ + self.ant_order(orig).map_values(
                |x: Id| Move::Movement(orig, x),
            ),
    {
        let ghost start = moves@;
        let mut visited = NodeSet::new();
        let mut queue: Vec<Id> = Vec::new();
        queue.push(orig);
        let ghost mut targets: Seq<Id> = Seq::empty();
        proof {
            assert(self.slide_path(orig, seq![orig]));
            assert(queue@[0] == orig);
            assert(seq![orig].last() == orig);
            assert forall|i: int| 0 <= i < 256 implies visited.table@[i] == false by {
                assert(!visited.contains(i));
            }
            assert(visited.table@ =~= Seq::new(256, |i: int| false));
            assert(queue@ =~= seq![orig]);
            assert(targets + self.ant_run(orig, visited.table@, queue@) =~= self.ant_order(orig));
            assert(self.search_closed(orig, visited.table@, queue@)) by {
                reveal(Board::search_closed);
                assert forall|x: Id, y: Id|
                    visited.table@[x as int] && #[trigger] self.slideable(
                        orig as int,
                        x as int,
                    ).contains(y) implies visited.table@[y as int] || queue@.contains(y) by {
                    assert(!visited.contains(x as int));
                }
            }
        }
        loop
            invariant
                self.wf(),
                (orig as int) < self.len(),
                visited.table@.len() == 256,
                forall|i: int|
                    0 <= i < queue@.len() ==> (#[trigger] queue@[i] as int) < self.len()
                        && self.slide_reachable(orig, queue@[i]),
                forall|x: Id|
                    #[trigger] visited.contains(x as int) <==> (x == orig && visited.contains(
                        orig as int,
                    )) || targets.contains(x),
                visited.contains(orig as int) || queue@.contains(orig),
                self.search_closed(orig, visited.table@, queue@),
                targets.no_duplicates(),
                forall|i: int|
                    0 <= i < targets.len() ==> #[trigger] targets[i] != orig && self.slide_reachable(
                        orig,
                        targets[i],
                    ),
                moves@ == start + targets.map_values(|x: Id| Move::Movement(orig, x)),
                targets + self.ant_run(orig, visited.table@, queue@) == self.ant_order(orig),
            ensures
                queue@.len() == 0,
            decreases unset_count(visited.table@, 256), queue@.len(),
        {
            let ghost qp = queue@;
            let popped = queue.pop();
            let node = match popped {
                None => {
                    break;
                },
                Some(node) => node,
            };
            proof {
                assert(qp.last() == node);
                assert(queue@ == qp.drop_last());
                assert(self.slide_reachable(orig, qp[qp.len() - 1]));
                if !visited.contains(orig as int) && node != orig {
                    let j = choose|j: int| 0 <= j < qp.len() && qp[j] == orig;
                    assert(queue@[j] == orig);
                }
            }
            if visited.get(node) {
                proof {
                    self.lemma_search_skip(orig, visited.table@, qp);
                    assert(self.ant_run(orig, visited.table@, qp) == self.ant_run(
                        orig,
                        visited.table@,
                        queue@,
                    ));
                }
                continue;
            }
            let ghost before = visited.table@;
            let ghost vis_before = visited;
            let ghost old_targets = targets;
            let ghost rest = self.ant_run(
                orig,
                before.update(node as int, true),
                qp.drop_last() + self.slideable(orig as int, node as int),
            );
            proof {
                assert(self.ant_run(orig, before, qp) == (if node != orig {
                    seq![node]
                } else {
                    Seq::empty()
                }) + rest);
            }
            visited.set(node);
            proof {
                lemma_unset_count_set(before, node as int, 256);
                self.lemma_search_visit(orig, before, qp);
            }
            if node != orig {
                moves.push(Move::Movement(orig, node));
                proof {
                    targets = targets.push(node);
                    assert(moves@ =~= start + targets.map_values(|x: Id| Move::Movement(orig, x)));
                    assert(!old_targets.contains(node));
                    assert forall|i: int| 0 <= i < targets.len() implies #[trigger] targets[i] != orig
                        && self.slide_reachable(orig, targets[i]) by {
                        if i < old_targets.len() {
                            assert(targets[i] == old_targets[i]);
                        }
                    }
                }
            }
            proof {
                assert forall|x: Id| #[trigger] visited.contains(x as int) <==> (x == orig
                    && visited.contains(orig as int)) || targets.contains(x) by {
                    if x != node {
                        assert(visited.table@[x as int] == before[x as int]);
                        assert(vis_before.contains(x as int) == before[x as int]);
                        assert(vis_before.contains(orig as int) == before[orig as int]);
                        if node != orig && targets.contains(x) {
                            let j = choose|j: int| 0 <= j < targets.len() && targets[j] == x;
                            assert(old_targets[j] == x);
                        }
                        if old_targets.contains(x) {
                            let j = choose|j: int| 0 <= j < old_targets.len() && old_targets[j] == x;
                            assert(targets[j] == x);
                        }
                    } else if node != orig {
                        assert(targets[targets.len() - 1] == x);
                    }
                }
            }
            let ghost s = self.slideable(orig as int, node as int);
            let ghost q0 = queue@;
            self.push_slides(orig, node, &mut queue);
            proof {
                assert forall|i: int| 0 <= i < queue@.len() implies (#[trigger] queue@[i] as int)
                    < self.len() && self.slide_reachable(orig, queue@[i]) by {
                    if i >= q0.len() {
                        assert(queue@[i] == s[i - q0.len()]);
                        assert(s.contains(queue@[i]));
                        self.lemma_reach_step(orig, node, queue@[i]);
                    } else {
                        assert(queue@[i] == q0[i]);
                    }
                }
                if !visited.contains(orig as int) {
                    let j = choose|j: int| 0 <= j < q0.len() && q0[j] == orig;
                    assert(queue@[j] == orig);
                }
                assert(queue@ == qp.drop_last() + s);
                assert(visited.table@ == before.update(node as int, true));
                if node != orig {
                    assert(old_targets + (seq![node] + rest) =~= targets + rest);
                } else {
                    assert(old_targets + (Seq::<Id>::empty() + rest) =~= targets + rest);
                }
            }
        }
        proof {
            assert(queue@ =~= Seq::<Id>::empty());
            assert forall|x: Id, y: Id|
                (x == orig || targets.contains(x)) && #[trigger] self.slideable(
                    orig as int,
                    x as int,
                ).contains(y) implies y == orig || targets.contains(y) by {
                assert(visited.contains(x as int));
                self.lemma_search_done(orig, visited.table@, x, y);
                assert(visited.contains(y as int));
            }
            assert(self.ant_targets(orig, targets));
            assert(targets + self.ant_run(orig, visited.table@, queue@) =~= targets);
        }
    }
}

impl Board {
    proof fn lemma_path_covered(self, o: Id, t: Seq<Id>, p: Seq<Id>, k: int)
        requires
            self.ant_targets(o, t),
            self.slide_path(o, p),
            0 <= k < p.len(),
        ensures
            p[k] == o || t.contains(p[k]),
        decreases k,
    {
        if k > 0 {
            self.lemma_path_covered(o, t, p, k - 1);
            assert(self.slideable(o as int, p[k - 1] as int).contains(p[k]));
        }
    }

    /// The ant targets are exactly the cells reachable by sliding, other than the origin.
    pub proof fn lemma_ant_targets_exact(self, o: Id, t: Seq<Id>, x: Id)
        requires
            self.ant_targets(o, t),
        ensures
            t.contains(x) <==> x != o && self.slide_reachable(o, x),
    {
        if self.slide_reachable(o, x) {
            let p = choose|p: Seq<Id>| self.slide_path(o, p) && p.last() == x;
            self.lemma_path_covered(o, t, p, p.len() - 1);
        }
        if t.contains(x) {
            let j = choose|j: int| 0 <= j < t.len() && t[j] == x;
            assert(t[j] != o && self.slide_reachable(o, t[j]));
        }
    }
}

/// The state of the depth-first search for articulation points.
pub struct CutSearch {
    pub visited: NodeSet,
    pub immovable: NodeSet,
    /// Visit number of each cell.
    pub num: [u16; 256],
    /// Lowest visit number reachable through the search tree and one back edge.
    pub low: [u16; 256],
    pub visit_num: u16,
}

/// The state of the articulation-point search as values: visited cells, marked
/// cells, visit numbers, low links, and the next visit number.
pub type CutModel = (Seq<bool>, Seq<bool>, Seq<u16>, Seq<u16>, u16);

/// The search enters cell `id`: it is visited and numbered.
pub open spec fn cut_enter(m: CutModel, id: int) -> CutModel {
    (m.0.update(id, true), m.1, m.2.update(id, m.4), m.3.update(id, m.4), (m.4 + 1) as u16)
}

/// The low link of `id` drops to `v` if that is lower.
pub open spec fn cut_lower(m: CutModel, id: int, v: u16) -> CutModel {
    if v < m.3[id] {
        (m.0, m.1, m.2, m.3.update(id, v), m.4)
    } else {
        m
    }
}

/// Cell `id` is marked as an articulation point.
pub open spec fn cut_mark(m: CutModel, id: int) -> CutModel {
    (m.0, m.1.update(id, true), m.2, m.3, m.4)
}

/// The search from cell `id`, entered from `parent` (`UNASSIGNED` at the root): the
/// state it leaves, with at most `fuel` nested visits. The root is marked when it
/// has two or more children in the search tree.
pub open spec fn cut_visit(b: Board, m: CutModel, id: int, parent: int, fuel: nat) -> CutModel
    decreases fuel, 7int,
{
    let (m2, ch) = cut_scan(b, cut_enter(m, id), id, parent, 0, 0, fuel);
    if parent == 0 && ch > 1 {
        cut_mark(m2, id)
    } else {
        m2
    }
}

/// The search over the neighbors `d..6` of `id`, with `ch` children found so far: a
/// visited occupied neighbor other than the parent lowers the low link of `id` to its
/// number; an unvisited one is searched, lowers the low link of `id` to its own, and
/// marks `id` (unless it is the root) when it cannot reach above `id`.
pub open spec fn cut_scan(
    b: Board,
    m: CutModel,
    id: int,
    parent: int,
    d: int,
    ch: nat,
    fuel: nat,
) -> (CutModel, nat)
    decreases fuel, 6 - d,
{
    if d < 0 || d >= 6 {
        (m, ch)
    } else {
        let a = b.adj(id, d) as int;
        if b.occupied(a) && a != parent {
            if m.0[a] {
                cut_scan(b, cut_lower(m, id, m.2[a]), id, parent, d + 1, ch, fuel)
            } else if fuel == 0 {
                (m, ch)
            } else {
                let m1 = cut_visit(b, m, a, id, (fuel - 1) as nat);
                let m2 = cut_lower(m1, id, m1.3[a]);
                let m3 = if m2.3[a] >= m2.2[id] && parent != 0 {
                    cut_mark(m2, id)
                } else {
                    m2
                };
                cut_scan(b, m3, id, parent, d + 1, ch + 1, fuel)
            }
        } else {
            cut_scan(b, m, id, parent, d + 1, ch, fuel)
        }
    }
}

/// The search state before anything is visited.
pub open spec fn cut_start() -> CutModel {
    (
        Seq::new(256, |i: int| false),
        Seq::new(256, |i: int| false),
        Seq::new(256, |i: int| 0u16),
        Seq::new(256, |i: int| 0u16),
        1u16,
    )
}

/// The first occupied cell at or after `i`, or `b.len()` when there is none.
pub open spec fn first_occupied_from(b: Board, i: int) -> int
    decreases b.len() - i,
{
    if i < 0 || i >= b.len() {
        b.len()
    } else if b.occupied(i) {
        i
    } else {
        first_occupied_from(b, i + 1)
    }
}

/// The cells that the articulation-point search marks: a search with low links from
/// the first occupied cell, or none on an empty board.
pub open spec fn cut_set(b: Board) -> Seq<bool> {
    let s = first_occupied_from(b, 0);
    if s >= b.len() {
        Seq::new(256, |i: int| false)
    } else {
        cut_visit(b, cut_start(), s, 0, 256).1
    }
}

impl CutSearch {
    pub open spec fn model(self) -> CutModel {
        (self.visited.table@, self.immovable.table@, self.num@, self.low@, self.visit_num)
    }

    pub open spec fn inv(self, board: Board) -> bool {
        &&& self.visited.table@.len() == 256
        &&& self.visit_num + unset_count(self.visited.table@, 256) == 257
        &&& forall|i: int|
            0 <= i < 256 && #[trigger] self.immovable.contains(i) ==> i < board.len()
                && board.occupied(i) && occupied_nbrs(board, i, 6) >= 2
    }
}

/// Two different occupied directions around a cell count twice.
pub proof fn lemma_two_occupied_nbrs(b: Board, id: int, d1: int, d2: int, n: int)
    requires
        0 <= d1 < n,
        0 <= d2 < n,
        d1 != d2,
        b.occupied(b.adj(id, d1) as int),
        b.occupied(b.adj(id, d2) as int),
    ensures
        occupied_nbrs(b, id, n) >= 2,
    decreases n,
{
    if d1 < n - 1 && d2 < n - 1 {
        lemma_two_occupied_nbrs(b, id, d1, d2, n - 1);
    } else {
        let other = if d1 == n - 1 {
            d2
        } else {
            d1
        };
        lemma_one_occupied_nbr(b, id, other, n - 1);
    }
}

pub proof fn lemma_one_occupied_nbr(b: Board, id: int, d: int, n: int)
    requires
        0 <= d < n,
        b.occupied(b.adj(id, d) as int),
    ensures
        occupied_nbrs(b, id, n) >= 1,
    decreases n,
{
    if d < n - 1 {
        lemma_one_occupied_nbr(b, id, d, n - 1);
    }
}

impl CutSearch {
    fn mark_immovable(&mut self, board: &Board, id: Id)
        requires
            old(self).inv(*board),
            (id as int) < board.len(),
            board.occupied(id as int),
            occupied_nbrs(*board, id as int, 6) >= 2,
        ensures
            final(self).inv(*board),
            final(self).visited == old(self).visited,
            final(self).num == old(self).num,
            final(self).low == old(self).low,
            final(self).visit_num == old(self).visit_num,
            final(self).model() == cut_mark(old(self).model(), id as int),
    {
        let ghost prev = self.immovable;
        self.immovable.set(id);
        proof {
            assert(self.model() =~= cut_mark(old(self).model(), id as int));
            assert forall|i: int|
                0 <= i < 256 && #[trigger] self.immovable.contains(i) implies i < board.len()
                && board.occupied(i) && occupied_nbrs(*board, i, 6) >= 2 by {
                if i != id {
                    assert(prev.contains(i));
                }
            }
        }
    }
}

pub proof fn lemma_unset_count_bound(t: Seq<bool>, n: int)
    requires
        0 <= n <= t.len(),
    ensures
        unset_count(t, n) <= n,
    decreases n,
{
    if n > 0 {
        lemma_unset_count_bound(t, n - 1);
    }
}

fn cut_dfs(board: &Board, state: &mut CutSearch, id: Id, parent: Id)
    requires
        board.wf(),
        (id as int) < board.len(),
        board.occupied(id as int),
        old(state).inv(*board),
        !old(state).visited.contains(id as int),
        parent == UNASSIGNED || exists|dp: int|
            0 <= dp < 6 && #[trigger] board.adj(id as int, dp) == parent && board.occupied(
                parent as int,
            ),
    ensures
        final(state).inv(*board),
        unset_count(final(state).visited.table@, 256) < unset_count(old(state).visited.table@, 256),
        forall|f: nat|
            f >= unset_count(old(state).visited.table@, 256) ==> #[trigger] cut_visit(
                *board,
                old(state).model(),
                id as int,
                parent as int,
                f,
            ) == final(state).model(),
    decreases unset_count(old(state).visited.table@, 256),
{
    let ghost entry = unset_count(state.visited.table@, 256);
    let ghost before = state.visited.table@;
    let ghost m0 = state.model();
    state.visited.set(id);
    proof {
        lemma_unset_count_set(before, id as int, 256);
        lemma_unset_count_bound(before, 256);
    }
    state.num[id as usize] = state.visit_num;
    state.low[id as usize] = state.visit_num;
    state.visit_num += 1;
    let ghost me = state.model();
    proof {
        assert(me =~= cut_enter(m0, id as int));
    }
    let mut children: u32 = 0;
    let adj = board.adjacent(id);
    let mut d: usize = 0;
    while d < 6
        invariant
            board.wf(),
            (id as int) < board.len(),
            board.occupied(id as int),
            state.inv(*board),
            0 <= d <= 6,
            children <= occupied_nbrs(*board, id as int, d as int),
            parent == UNASSIGNED || exists|dp: int|
                0 <= dp < 6 && #[trigger] board.adj(id as int, dp) == parent && board.occupied(
                    parent as int,
                ),
            unset_count(state.visited.table@, 256) < entry,
            entry == unset_count(old(state).visited.table@, 256),
            forall|k: int| 0 <= k < 6 ==> #[trigger] adj@[k] == board.adj(id as int, k),
            me == cut_enter(m0, id as int),
            m0 == old(state).model(),
            forall|f: nat|
                f >= entry ==> #[trigger] cut_scan(*board, me, id as int, parent as int, 0, 0, f)
                    == cut_scan(*board, state.model(), id as int, parent as int, d as int, children as nat, f),
        decreases 6 - d,
    {
        let a = adj[d];
        let ghost ms = state.model();
        let ghost ch0 = children as nat;
        proof {
            lemma_occupied_nbrs_bound(*board, id as int, d as int);
            assert(occupied_nbrs(*board, id as int, d as int + 1) == occupied_nbrs(
                *board,
                id as int,
                d as int,
            ) + if board.occupied(board.adj(id as int, d as int) as int) {
                1nat
            } else {
                0nat
            });
        }
        if board.is_occupied(a) && a != parent {
            if state.visited.get(a) {
                if state.num[a as usize] < state.low[id as usize] {
                    state.low[id as usize] = state.num[a as usize];
                }
                proof {
                    assert(state.model() =~= cut_lower(ms, id as int, ms.2[a as int]));
                }
            } else {
                proof {
                    board.lemma_link_back(id as int, d as int);
                }
                cut_dfs(board, state, a, id);
                let ghost mc = state.model();
                if state.low[a as usize] < state.low[id as usize] {
                    state.low[id as usize] = state.low[a as usize];
                }
                let ghost m2 = state.model();
                proof {
                    assert(m2 =~= cut_lower(mc, id as int, mc.3[a as int]));
                }
                if state.low[a as usize] >= state.num[id as usize] && parent != UNASSIGNED {
                    proof {
                        let dp = choose|dp: int|
                            0 <= dp < 6 && #[trigger] board.adj(id as int, dp) == parent
                                && board.occupied(parent as int);
                        lemma_two_occupied_nbrs(*board, id as int, d as int, dp, 6);
                    }
                    state.mark_immovable(board, id);
                }
                proof {
                    assert(state.model() == if m2.3[a as int] >= m2.2[id as int] && parent != 0 {
                        cut_mark(m2, id as int)
                    } else {
                        m2
                    });
                    assert forall|f: nat| f >= entry implies #[trigger] cut_scan(
                        *board,
                        ms,
                        id as int,
                        parent as int,
                        d as int,
                        ch0,
                        f,
                    ) == cut_scan(
                        *board,
                        state.model(),
                        id as int,
                        parent as int,
                        d as int + 1,
                        ch0 + 1,
                        f,
                    ) by {
                        assert(f > 0);
                        assert((f - 1) as nat >= unset_count(ms.0, 256));
                        assert(cut_visit(*board, ms, a as int, id as int, (f - 1) as nat) == mc);
                    }
                }
                children += 1;
            }
        }
        proof {
            assert forall|f: nat| f >= entry implies #[trigger] cut_scan(
                *board,
                me,
                id as int,
                parent as int,
                0,
                0,
                f,
            ) == cut_scan(
                *board,
                state.model(),
                id as int,
                parent as int,
                d as int + 1,
                children as nat,
                f,
            ) by {
                assert(cut_scan(*board, me, id as int, parent as int, 0, 0, f) == cut_scan(
                    *board,
                    ms,
                    id as int,
                    parent as int,
                    d as int,
                    ch0,
                    f,
                ));
            }
        }
        d += 1;
    }
    let ghost ml = state.model();
    proof {
        assert forall|f: nat| f >= entry implies #[trigger] cut_scan(
            *board,
            me,
            id as int,
            parent as int,
            0,
            0,
            f,
        ) == (ml, children as nat) by {
            assert(cut_scan(*board, ml, id as int, parent as int, 6, children as nat, f) == (
            ml,
            children as nat,
            ));
        }
    }
    if parent == UNASSIGNED && children > 1 {
        state.mark_immovable(board, id);
    }
    proof {
        assert(state.inv(*board));
        assert forall|f: nat| f >= entry implies #[trigger] cut_visit(
            *board,
            m0,
            id as int,
            parent as int,
            f,
        ) == state.model() by {
            assert(cut_scan(*board, cut_enter(m0, id as int), id as int, parent as int, 0, 0, f) == (
            ml,
            children as nat,
            ));
        }
    }
}

impl Board {
    /// The articulation points of the occupied cells: the tiles whose removal would
    /// split the hive. Found by one depth-first search with low links from the first
    /// occupied cell; an empty board has none.
    pub fn find_cut_vertexes(&self) -> (r: NodeSet)
        requires
            self.wf(),
        ensures
            r.table@ == cut_set(*self),
            forall|i: int|
                0 <= i < 256 && #[trigger] r.contains(i) ==> i < self.len() && self.occupied(i)
                    && occupied_nbrs(*self, i, 6) >= 2,
    {
        let mut state = CutSearch {
            visited: NodeSet::new(),
            immovable: NodeSet::new(),
            num: [0; 256],
            low: [0; 256],
            visit_num: 1,
        };
        proof {
            assert(unset_count(state.visited.table@, 256) == 256) by {
                assert forall|k: int| 0 <= k < 256 implies !state.visited.table@[k] by {
                    assert(!state.visited.contains(k));
                }
                lemma_unset_count_all(state.visited.table@, 256);
            }
            assert(state.model() =~= cut_start()) by {
                assert forall|k: int| 0 <= k < 256 implies !state.visited.table@[k] by {
                    assert(!state.visited.contains(k));
                }
                assert(state.visited.table@ =~= Seq::new(256, |i: int| false));
                assert(state.immovable.table@ =~= Seq::new(256, |i: int| false)) by {
                    assert forall|k: int| 0 <= k < 256 implies !state.immovable.table@[k] by {
                        assert(!state.immovable.contains(k));
                    }
                }
                assert(state.num@ =~= Seq::new(256, |i: int| 0u16));
                assert(state.low@ =~= Seq::new(256, |i: int| 0u16));
            }
        }
        let ghost m0 = state.model();
        let n = self.nodes.len();
        let mut i: usize = 0;
        while i < n
            invariant
                self.wf(),
                n == self.len(),
                0 <= i <= n,
                state.inv(*self),
                forall|k: int| 0 <= k < 256 ==> !#[trigger] state.visited.contains(k),
                state.model() == m0,
                m0 == cut_start(),
                unset_count(state.visited.table@, 256) == 256,
                first_occupied_from(*self, 0) == first_occupied_from(*self, i as int),
            decreases n - i,
        {
            if self.is_occupied(i as Id) {
                cut_dfs(self, &mut state, i as Id, UNASSIGNED);
                proof {
                    assert(cut_visit(*self, m0, i as int, 0, 256) == state.model());
                }
                return state.immovable;
            }
            i += 1;
        }
        proof {
            assert(state.immovable.table@ =~= Seq::new(256, |i: int| false)) by {
                assert forall|k: int| 0 <= k < 256 implies !state.immovable.table@[k] by {
                    if state.immovable.table@[k] {
                        assert(state.immovable.contains(k));
                    }
                }
            }
        }
        state.immovable
    }
}

impl Tile {
    pub proof fn lemma_stacked(&self)
        ensures
            self.underneath is Some <==> self.stack().len() > 1,
    {
        if let Some(below) = &self.underneath {
            below.lemma_stack_nonempty();
        }
    }
}

impl Board {
    /// What the side to move can do with the tile on `id`, given the set `imm` of
    /// cells that must not be lifted: nothing for an empty cell or an opponent's tile,
    /// a step to any neighbor for a tile on a stack, nothing for a ground tile in
    /// `imm`, and otherwise the moves of its bug.
    pub open spec fn tile_seq(self, imm: Seq<bool>, id: int) -> Seq<Move> {
        match self.top(id) {
            None => Seq::empty(),
            Some(t) => if t.color != self.spec_to_move() {
                Seq::empty()
            } else if self.stack(id).len() > 1 {
                self.stack_walk_moves(id)
            } else if imm[id] {
                Seq::empty()
            } else {
                match t.bug {
                    Bug::Queen => self.walk1_moves(id),
                    Bug::Grasshopper => self.jump_moves(id),
                    Bug::Spider => self.walk3_moves(id),
                    Bug::Ant => self.ant_order(id as u8).map_values(
                        |x: Id| Move::Movement(id as u8, x),
                    ),
                    Bug::Beetle => self.walk1_moves(id) + self.walk_up_moves(id),
                }
            },
        }
    }

    /// The moves of the tiles on cells `1..n`, cell by cell.
    pub open spec fn movements_seq(self, imm: Seq<bool>, n: int) -> Seq<Move>
        decreases n,
    {
        if n <= 1 {
            Seq::empty()
        } else {
            self.movements_seq(imm, n - 1) + self.tile_seq(imm, n - 1)
        }
    }

    /// All the moves of tiles already on the board for the side to move, cell by
    /// cell, with the articulation points held in place.
    pub fn generate_movements(&self, moves: &mut Vec<Move>)
        requires
            self.wf(),
        ensures
            final(moves)@ == old(moves)@ + self.movements_seq(cut_set(*self), self.len()),
    {
        let immovable = self.find_cut_vertexes();
        let ghost imm = immovable.table@;
        proof {
            assert forall|i: int| 0 <= i < imm.len() && #[trigger] imm[i] implies i < self.len()
                && self.occupied(i) by {
                assert(immovable.contains(i));
            }
        }
        let ghost start = moves@;
        let n = self.nodes.len();
        let mut id: usize = 1;
        proof {
            assert(moves@ =~= start + self.movements_seq(imm, 1));
        }
        while id < n
            invariant
                self.wf(),
                n == self.len(),
                1 <= id <= n,
                imm == immovable.table@,
                imm.len() == 256,
                forall|i: int| 0 <= i < imm.len() && #[trigger] imm[i] ==> i < self.len() && self.occupied(i),
                imm == cut_set(*self),
                moves@ == start + self.movements_seq(imm, id as int),
            decreases n - id,
        {
            let ghost prev = moves@;
            let cell = id as Id;
            if let Some(tile) = &self.nodes[id].tile {
                proof {
                    tile.lemma_stacked();
                }
                if tile.color != self.to_move() {
                } else if tile.underneath.is_some() {
                    self.generate_stack_walking(cell, moves);
                } else if !immovable.get(cell) {
                    match tile.bug {
                        Bug::Queen => self.generate_walk1(cell, moves),
                        Bug::Grasshopper => self.generate_jumps(cell, moves),
                        Bug::Spider => self.generate_walk3(cell, moves),
                        Bug::Ant => self.generate_walk_all(cell, moves),
                        Bug::Beetle => {
                            self.generate_walk1(cell, moves);
                            self.generate_walk_up(cell, moves);
                        },
                    }
                }
            }
            proof {
                let seg = self.tile_seq(imm, id as int);
                if self.occupied(id as int) {
                    let t = self.top(id as int)->0;
                    if t.color == self.spec_to_move() && self.stack(id as int).len() <= 1 && !imm[id as int]
                        && t.bug == Bug::Beetle {
                        assert(moves@ =~= prev + (self.walk1_moves(id as int) + self.walk_up_moves(
                            id as int,
                        )));
                    } else if t.color != self.spec_to_move() || (self.stack(id as int).len() <= 1
                        && imm[id as int]) {
                        assert(moves@ =~= prev + seg);
                    }
                } else {
                    assert(moves@ =~= prev + seg);
                }
                assert(moves@ == prev + seg);
                assert(moves@ =~= start + self.movements_seq(imm, id as int + 1));
            }
            id += 1;
        }
    }
}

/// The bugs in reserve order.
pub open spec fn all_bugs() -> Seq<Bug> {
    seq![Bug::Queen, Bug::Grasshopper, Bug::Spider, Bug::Ant, Bug::Beetle]
}

impl Board {
    /// The side to move may place a `b` now: one is left in its reserve, and the
    /// queen is not overdue unless `b` is the queen.
    pub open spec fn may_place(self, b: Bug) -> bool {
        self.spec_remaining(self.spec_to_move(), b) > 0 && (!self.spec_queen_required() || b
            == Bug::Queen)
    }

    /// The placeable bugs among the first `k` of `all_bugs()`, in order.
    pub open spec fn place_bugs_upto(self, k: int) -> Seq<Bug>
        decreases k,
    {
        if k <= 0 {
            Seq::empty()
        } else if self.may_place(all_bugs()[k - 1]) {
            self.place_bugs_upto(k - 1).push(all_bugs()[k - 1])
        } else {
            self.place_bugs_upto(k - 1)
        }
    }

    pub open spec fn place_bugs(self) -> Seq<Bug> {
        self.place_bugs_upto(5)
    }

    /// A neighbor among the first `n` of cell `id` holds a tile whose top is `c`
    /// (`same`) or not `c` (`!same`).
    pub open spec fn nbr_color(self, id: int, c: Color, same: bool, n: int) -> bool {
        exists|d: int|
            0 <= d < n && #[trigger] self.occupied(self.adj(id, d) as int) && (self.top(
                self.adj(id, d) as int,
            )->0.color == c) == same
    }

    /// An empty cell touching a tile of the side to move and none of the opponent.
    pub open spec fn placeable(self, id: int) -> bool {
        !self.occupied(id) && self.nbr_color(id, self.spec_to_move(), true, 6) && !self.nbr_color(
            id,
            self.spec_to_move(),
            false,
            6,
        )
    }

    pub open spec fn places_at(self, id: int) -> Seq<Move> {
        self.place_bugs().map_values(|b: Bug| Move::Place(id as u8, b))
    }

    /// The placements on cells `1..n`, cell by cell.
    pub open spec fn placements_upto(self, n: int) -> Seq<Move>
        decreases n,
    {
        if n <= 1 {
            Seq::empty()
        } else {
            self.placements_upto(n - 1) + if self.placeable(n - 1) {
                self.places_at(n - 1)
            } else {
                Seq::empty()
            }
        }
    }

    /// Appends `Place(id, b)` for each bug `b` of `place_bugs()`.
    pub(crate) fn push_places(&self, id: Id, moves: &mut Vec<Move>)
        ensures
            final(moves)@ == old(moves)@ + self.places_at(id as int),
    {
        let ghost start = moves@;
        let bugs = self.get_available_bugs();
        let required = self.queen_required();
        let mut k: usize = 0;
        while k < 5
            invariant
                0 <= k <= 5,
                required == self.spec_queen_required(),
                bugs@ == seq![
                    (Bug::Queen, self.spec_remaining(self.spec_to_move(), Bug::Queen)),
                    (Bug::Grasshopper, self.spec_remaining(self.spec_to_move(), Bug::Grasshopper)),
                    (Bug::Spider, self.spec_remaining(self.spec_to_move(), Bug::Spider)),
                    (Bug::Ant, self.spec_remaining(self.spec_to_move(), Bug::Ant)),
                    (Bug::Beetle, self.spec_remaining(self.spec_to_move(), Bug::Beetle)),
                ],
                moves@ == start + self.place_bugs_upto(k as int).map_values(
                    |b: Bug| Move::Place(id, b),
                ),
            decreases 5 - k,
        {
            let (bug, num_left) = bugs[k];
            proof {
                assert(bug == all_bugs()[k as int]);
                assert(num_left == self.spec_remaining(self.spec_to_move(), bug));
            }
            if !(required && bug != Bug::Queen) && num_left > 0 {
                moves.push(Move::Place(id, bug));
            }
            proof {
                assert(moves@ =~= start + self.place_bugs_upto(k as int + 1).map_values(
                    |b: Bug| Move::Place(id, b),
                ));
            }
            k += 1;
        }
    }

    /// Placements for the side to move: every bug it may place, on every empty cell
    /// that touches its own tiles and none of the opponent's.
    pub fn generate_placements(&self, moves: &mut Vec<Move>)
        requires
            self.wf(),
        ensures
            final(moves)@ == old(moves)@ + self.placements_upto(self.len()),
    {
        let ghost start = moves@;
        let color = self.to_move();
        let n = self.nodes.len();
        let mut id: usize = 1;
        while id < n
            invariant
                self.wf(),
                n == self.len(),
                1 <= id <= n,
                color == self.spec_to_move(),
                moves@ == start + self.placements_upto(id as int),
            decreases n - id,
        {
            if self.nodes[id].tile.is_none() {
                let adj = self.nodes[id].adj;
                let mut buddies = false;
                let mut enemies = false;
                let mut d: usize = 0;
                while d < 6
                    invariant
                        self.wf(),
                        n == self.len(),
                        1 <= id < n,
                        0 <= d <= 6,
                        color == self.spec_to_move(),
                        forall|k: int| 0 <= k < 6 ==> #[trigger] adj@[k] == self.adj(id as int, k),
                        buddies == self.nbr_color(id as int, color, true, d as int),
                        enemies == self.nbr_color(id as int, color, false, d as int),
                    decreases 6 - d,
                {
                    if let Some(tile) = self.get(adj[d]) {
                        if tile.color == color {
                            buddies = true;
                        } else {
                            enemies = true;
                        }
                    }
                    proof {
                        assert(self.occupied(self.adj(id as int, d as int) as int) ==> (self.top(
                            self.adj(id as int, d as int) as int,
                        )->0.color == color) == (self.top(adj@[d as int] as int)->0.color == color));
                        if buddies && !self.nbr_color(id as int, color, true, d as int) {
                            assert(self.occupied(self.adj(id as int, d as int) as int));
                        }
                        if enemies && !self.nbr_color(id as int, color, false, d as int) {
                            assert(self.occupied(self.adj(id as int, d as int) as int));
                        }
                        if self.nbr_color(id as int, color, true, d as int + 1) && !self.nbr_color(
                            id as int,
                            color,
                            true,
                            d as int,
                        ) {
                            let w = choose|w: int|
                                0 <= w < d + 1 && #[trigger] self.occupied(
                                    self.adj(id as int, w) as int,
                                ) && (self.top(self.adj(id as int, w) as int)->0.color == color)
                                    == true;
                            assert(w == d);
                        }
                        if self.nbr_color(id as int, color, false, d as int + 1) && !self.nbr_color(
                            id as int,
                            color,
                            false,
                            d as int,
                        ) {
                            let w = choose|w: int|
                                0 <= w < d + 1 && #[trigger] self.occupied(
                                    self.adj(id as int, w) as int,
                                ) && (self.top(self.adj(id as int, w) as int)->0.color == color)
                                    == false;
                            assert(w == d);
                        }
                    }
                    d += 1;
                }
                if buddies && !enemies {
                    self.push_places(id as Id, moves);
                }
            }
            proof {
                assert(moves@ =~= start + self.placements_upto(id as int + 1));
            }
            id += 1;
        }
    }
}

/// Every move of `s` carries the tile on `id`.
pub open spec fn moves_from(s: Seq<Move>, id: int) -> bool {
    forall|j: int| 0 <= j < s.len() ==> (#[trigger] s[j] is Movement) && s[j]->Movement_0 as int == id
}

proof fn lemma_moves_from_concat(a: Seq<Move>, b: Seq<Move>, id: int)
    requires
        moves_from(a, id),
        moves_from(b, id),
    ensures
        moves_from(a + b, id),
{
    assert forall|j: int| 0 <= j < (a + b).len() implies (#[trigger] (a + b)[j] is Movement) && (a
        + b)[j]->Movement_0 as int == id by {
        if j < a.len() {
            assert((a + b)[j] == a[j]);
        } else {
            assert((a + b)[j] == b[j - a.len()]);
        }
    }
}

impl Board {
    proof fn lemma_climbs_from(self, id: int, n: int)
        requires
            0 <= id < 256,
        ensures
            moves_from(self.climbs_upto(id, n), id),
        decreases n,
    {
        if n > 0 {
            self.lemma_climbs_from(id, n - 1);
            let p = self.climbs_upto(id, n - 1);
            assert forall|j: int| 0 <= j < p.len() + 1 implies #[trigger] p.push(
                Move::Movement(id as u8, self.adj(id, n - 1)),
            )[j] == if j < p.len() {
                p[j]
            } else {
                Move::Movement(id as u8, self.adj(id, n - 1))
            } by {}
        }
    }

    proof fn lemma_jumps_from(self, id: int, n: int)
        requires
            0 <= id < 256,
        ensures
            moves_from(self.jumps_upto(id, n), id),
        decreases n,
    {
        if n > 0 {
            self.lemma_jumps_from(id, n - 1);
            let p = self.jumps_upto(id, n - 1);
            let m = Move::Movement(id as u8, self.line_end(id, n - 1, 256) as u8);
            assert forall|j: int| 0 <= j < p.len() + 1 implies #[trigger] p.push(m)[j] == if j
                < p.len() {
                p[j]
            } else {
                m
            } by {}
        }
    }

    proof fn lemma_spider3_from(self, o: int, a: int, b: int, n: int)
        requires
            0 <= o < 256,
        ensures
            moves_from(self.spider3_upto(o, a, b, n), o),
        decreases n,
    {
        if n > 0 {
            self.lemma_spider3_from(o, a, b, n - 1);
            let c = self.slideable(o, b)[n - 1] as int;
            let tail = if c != o && c != a && c != b {
                seq![Move::Movement(o as u8, c as u8)]
            } else {
                Seq::empty()
            };
            lemma_moves_from_concat(self.spider3_upto(o, a, b, n - 1), tail, o);
        }
    }

    proof fn lemma_spider2_from(self, o: int, a: int, n: int)
        requires
            0 <= o < 256,
        ensures
            moves_from(self.spider2_upto(o, a, n), o),
        decreases n,
    {
        if n > 0 {
            self.lemma_spider2_from(o, a, n - 1);
            let b = self.slideable(o, a)[n - 1] as int;
            self.lemma_spider3_from(o, a, b, self.slideable(o, b).len() as int);
            let tail = if b != o && b != a {
                self.spider3_upto(o, a, b, self.slideable(o, b).len() as int)
            } else {
                Seq::empty()
            };
            lemma_moves_from_concat(self.spider2_upto(o, a, n - 1), tail, o);
        }
    }

    proof fn lemma_spider1_from(self, o: int, n: int)
        requires
            0 <= o < 256,
        ensures
            moves_from(self.spider1_upto(o, n), o),
        decreases n,
    {
        if n > 0 {
            self.lemma_spider1_from(o, n - 1);
            let a = self.slideable(o, o)[n - 1] as int;
            self.lemma_spider2_from(o, a, self.slideable(o, a).len() as int);
            let tail = if a != o {
                self.spider2_upto(o, a, self.slideable(o, a).len() as int)
            } else {
                Seq::empty()
            };
            lemma_moves_from_concat(self.spider1_upto(o, n - 1), tail, o);
        }
    }

    /// The moves attributed to a cell all carry the tile on that cell, and there are
    /// none for a ground tile in `imm`.
    pub proof fn lemma_tile_moves_from(self, imm: Seq<bool>, id: int)
        requires
            0 <= id < 256,
        ensures
            ({
                let seg = self.tile_seq(imm, id);
                &&& moves_from(seg, id)
                &&& seg.len() > 0 ==> self.occupied(id) && self.top(id)->0.color
                    == self.spec_to_move()
                &&& seg.len() > 0 && self.stack(id).len() <= 1 ==> !imm[id]
            }),
    {
        self.lemma_climbs_from(id, 6);
        self.lemma_jumps_from(id, 6);
        self.lemma_spider1_from(id, self.slideable(id, id).len() as int);
        lemma_moves_from_concat(self.walk1_moves(id), self.walk_up_moves(id), id);
        let o = id as u8;
        let am = self.ant_order(o).map_values(|x: Id| Move::Movement(o, x));
        assert forall|j: int| 0 <= j < am.len() implies (#[trigger] am[j] is Movement)
            && am[j]->Movement_0 as int == id by {}
    }

    /// Every move that `generate_movements` lists moves a tile of the side to move,
    /// and no tile standing on the ground at an articulation point of `imm` moves.
    pub proof fn lemma_no_move_from_cut(self, imm: Seq<bool>, n: int, j: int)
        requires
            n <= 256,
            0 <= j < self.movements_seq(imm, n).len(),
        ensures
            ({
                let m = self.movements_seq(imm, n)[j];
                &&& m is Movement
                &&& 1 <= m->Movement_0 < n
                &&& self.occupied(m->Movement_0 as int)
                &&& self.top(m->Movement_0 as int)->0.color == self.spec_to_move()
                &&& self.stack(m->Movement_0 as int).len() <= 1 ==> !imm[m->Movement_0 as int]
            }),
        decreases n,
    {
        if n > 1 {
            let p = self.movements_seq(imm, n - 1);
            let t = self.tile_seq(imm, n - 1);
            if j < p.len() {
                self.lemma_no_move_from_cut(imm, n - 1, j);
                assert((p + t)[j] == p[j]);
            } else {
                self.lemma_tile_moves_from(imm, n - 1);
                assert((p + t)[j] == t[j - p.len()]);
            }
        }
    }
}

pub proof fn lemma_unset_count_all(t: Seq<bool>, n: int)
    requires
        0 <= n <= t.len(),
        forall|k: int| 0 <= k < n ==> !t[k],
    ensures
        unset_count(t, n) == n,
    decreases n,
{
    if n > 0 {
        lemma_unset_count_all(t, n - 1);
    }
}

} // verus!
