//! Playing and taking back moves, the full move list with the pass rule, the end of
//! a game, and two evaluators.

use vstd::prelude::*;

use crate::movegen::{all_bugs, cut_set};
use crate::board::{count_in_stack, initial_reserve, lemma_count_change, lemma_count_grow, lemma_count_same, lemma_hash_grow, lemma_occupied_nbrs_bound, lemma_hash_same_stacks, stack_of, Board, Bug, Color, Id, Move, MAX_STACK, UNASSIGNED};

verus! {

impl Color {
    pub open spec fn other(self) -> Color {
        match self {
            Color::Black => Color::White,
            Color::White => Color::Black,
        }
    }

    /// The other color.
    pub fn opponent(self) -> (r: Color)
        ensures
            r == self.other(),
    {
        match self {
            Color::Black => Color::White,
            Color::White => Color::Black,
        }
    }
}

impl Board {
    /// Every cell of `old` but `a` and `b` holds the same stack in `self`.
    pub open spec fn stacks_same_except(self, old: Board, a: int, b: int) -> bool {
        forall|i: int| 0 <= i < old.len() && i != a && i != b ==> #[trigger] self.stack(i) == old.stack(i)
    }

    /// The reserves of `self` are those of `old`, with `delta` added to `(c, bug)`.
    pub open spec fn reserve_after(self, old: Board, c: Color, bug: Bug, delta: int) -> bool {
        forall|c2: Color, b2: Bug| #[trigger]
            self.spec_remaining(c2, b2) as int == old.spec_remaining(c2, b2) as int + if c2 == c
                && b2 == bug {
                delta
            } else {
                0
            }
    }

    /// `self` is `old` again: the same stacks on the cells of `old`, the same
    /// reserves, queens, move counter, hash and hash history. Only cells allocated
    /// meanwhile, all empty, may differ.
    pub open spec fn restores(self, old: Board) -> bool {
        &&& self.arena_grows(old)
        &&& forall|i: int| 0 <= i < old.len() ==> #[trigger] self.stack(i) == old.stack(i)
        &&& forall|c: Color, b: Bug| #[trigger] self.spec_remaining(c, b) == old.spec_remaining(c, b)
        &&& self.queens == old.queens
        &&& self.move_num == old.move_num
        &&& self.zobrist_hash == old.zobrist_hash
        &&& self.zobrist_history@ == old.zobrist_history@
    }
}

impl Move {
    /// The move can be carried out on `b` without breaking its well-formedness or an
    /// arithmetic bound.
    pub open spec fn applicable(self, b: Board) -> bool {
        &&& b.move_num < 65535
        &&& match self {
            Move::Place(id, bug) => {
                &&& 1 <= id
                &&& (id as int) < b.len()
                &&& b.spec_remaining(b.spec_to_move(), bug) > 0
                &&& b.stack(id as int).len() < MAX_STACK
                &&& !b.occupied(id as int) ==> b.surroundable(id as int)
            },
            Move::Movement(from, to) => {
                &&& (from as int) < b.len()
                &&& b.occupied(from as int)
                &&& 1 <= to
                &&& (to as int) < b.len()
                &&& from != to
                &&& b.stack(to as int).len() < MAX_STACK
                &&& !b.occupied(to as int) ==> b.surroundable(to as int)
            },
            Move::Pass => true,
        }
    }

    /// `r` is `b` after the move: a placed tile of the side to move on top of its
    /// cell and one fewer in reserve; or the top tile of `from` carried to the top of
    /// `to`; or nothing for a pass. The counter advances and the new hash is pushed.
    pub open spec fn applied(self, b: Board, r: Board) -> bool {
        &&& r.wf()
        &&& r.arena_grows(b)
        &&& r.move_num == b.move_num + 1
        &&& r.zobrist_history@ == b.zobrist_history@.push(r.zobrist_hash)
        &&& match self {
            Move::Place(id, bug) => {
                &&& r.stack(id as int) == b.stack(id as int).push((bug, b.spec_to_move()))
                &&& r.stacks_same_except(b, id as int, id as int)
                &&& r.reserve_after(b, b.spec_to_move(), bug, -1)
                &&& r.queens@ == if bug == Bug::Queen {
                    b.queens@.update(b.spec_to_move().spec_index() as int, id)
                } else {
                    b.queens@
                }
            },
            Move::Movement(from, to) => {
                let t = b.stack(from as int).last();
                &&& r.stack(from as int) == b.stack(from as int).drop_last()
                &&& r.stack(to as int) == b.stack(to as int).push(t)
                &&& r.stacks_same_except(b, from as int, to as int)
                &&& r.remaining == b.remaining
                &&& r.queens@ == if t.0 == Bug::Queen {
                    b.queens@.update(t.1.spec_index() as int, to)
                } else {
                    b.queens@
                }
            },
            Move::Pass => {
                &&& r.len() == b.len()
                &&& r.stacks_same_except(b, -1, -1)
                &&& r.remaining == b.remaining
                &&& r.queens == b.queens
            },
        }
    }

    /// A queen that the move places or carries is the one its color's queen cell
    /// refers to: unset before a placement, the origin before a movement.
    pub open spec fn keeps_queen_cells(self, b: Board) -> bool {
        match self {
            Move::Place(_, bug) => bug == Bug::Queen ==> b.queens[b.spec_to_move().spec_index() as int]
                == UNASSIGNED,
            Move::Movement(from, _) => b.stack(from as int).last().0 == Bug::Queen ==> b.queens[b.stack(
                from as int,
            ).last().1.spec_index() as int] == from,
            Move::Pass => true,
        }
    }

    /// The move can be taken back on `b`, the position right after it.
    pub open spec fn undoable(self, b: Board) -> bool {
        &&& b.move_num > 0
        &&& match self {
            Move::Place(id, bug) => {
                &&& (id as int) < b.len()
                &&& b.occupied(id as int)
                &&& b.spec_remaining(b.spec_to_move().other(), bug) < 255
            },
            Move::Movement(from, to) => {
                &&& (to as int) < b.len()
                &&& b.occupied(to as int)
                &&& 1 <= from
                &&& (from as int) < b.len()
                &&& from != to
                &&& b.stack(from as int).len() < MAX_STACK
                &&& !b.occupied(from as int) ==> b.surroundable(from as int)
            },
            Move::Pass => true,
        }
    }

    /// `r` is `b` with the move taken back.
    pub open spec fn undone(self, b: Board, r: Board) -> bool {
        &&& r.wf()
        &&& r.arena_grows(b)
        &&& r.move_num == b.move_num - 1
        &&& r.zobrist_history@ == b.zobrist_history@.drop_last()
        &&& match self {
            Move::Place(id, bug) => {
                let t = b.stack(id as int).last();
                &&& r.stack(id as int) == b.stack(id as int).drop_last()
                &&& r.stacks_same_except(b, id as int, id as int)
                &&& r.reserve_after(b, r.spec_to_move(), bug, 1)
                &&& r.queens@ == if t.0 == Bug::Queen && b.queens[t.1.spec_index() as int] == id {
                    b.queens@.update(t.1.spec_index() as int, UNASSIGNED)
                } else {
                    b.queens@
                }
            },
            Move::Movement(from, to) => {
                let t = b.stack(to as int).last();
                &&& r.stack(to as int) == b.stack(to as int).drop_last()
                &&& r.stack(from as int) == b.stack(from as int).push(t)
                &&& r.stacks_same_except(b, from as int, to as int)
                &&& r.remaining == b.remaining
                &&& r.queens@ == if t.0 == Bug::Queen {
                    b.queens@.update(t.1.spec_index() as int, from)
                } else {
                    b.queens@
                }
            },
            Move::Pass => {
                &&& r.len() == b.len()
                &&& r.stacks_same_except(b, -1, -1)
                &&& r.remaining == b.remaining
                &&& r.queens == b.queens
            },
        }
    }

    /// Plays the move on `board`. The move is trusted to be legal: it is not checked
    /// against the rules.
    pub fn apply(&self, board: &mut Board)
        requires
            old(board).wf(),
            self.applicable(*old(board)),
        ensures
            self.applied(*old(board), *final(board)),
    {
        let ghost b = *board;
        match *self {
            Move::Place(id, bug) => {
                let color = board.to_move();
                board.insert(id, bug, color);
                let ghost c = color.spec_index() as int;
                let k = bug.index() as usize;
                let ghost inserted = *board;
                let row = board.mut_remaining();
                row[k] = row[k] - 1;
                proof {
                    let r = *board;
                    assert(r.remaining[c][k as int] == inserted.remaining[c][k as int] - 1);
                    Board::lemma_counter_update(inserted, r);
                    Board::lemma_arena_trans(b, inserted, r);
                    assert forall|c2: Color, b2: Bug| #[trigger]
                        r.spec_remaining(c2, b2) as int == b.spec_remaining(c2, b2) as int + if c2
                            == color && b2 == bug {
                            -1int
                        } else {
                            0
                        } by {
                        if c2.spec_index() as int == c && b2.spec_index() as int == k {
                            assert(c2 == color && b2 == bug);
                        }
                    }
                }
            },
            Move::Movement(start, end) => {
                let ghost mid0 = *board;
                let tile = board.remove(start);
                proof {
                    let m = *board;
                    assert(m.stack(end as int) == b.stack(end as int));
                    if b.surrounded_already(end as int) {
                        assert forall|d: int| 0 <= d < 6 implies #[trigger] m.adj(end as int, d)
                            != UNASSIGNED by {
                            assert(b.adj(end as int, d) != UNASSIGNED);
                        }
                    }
                }
                let ghost mid = *board;
                board.insert(end, tile.bug, tile.color);
                proof {
                    let r = *board;
                    assert forall|i: int|
                        0 <= i < b.len() && i != start && i != end implies #[trigger] r.stack(i)
                        == b.stack(i) by {
                        assert(mid.nodes@[i].tile == b.nodes@[i].tile);
                        assert(r.nodes@[i].tile == mid.nodes@[i].tile);
                    }
                    assert(r.stack(start as int) == mid.stack(start as int));
                    Board::lemma_arena_trans(b, mid, r);
                }
            },
            Move::Pass => {},
        }
        let ghost pre = *board;
        board.move_num = board.move_num + 1;
        board.zobrist_history.push(board.zobrist_hash);
        proof {
            let r = *board;
            Board::lemma_counter_update(pre, r);
            Board::lemma_arena_trans(b, pre, r);
            assert forall|i: int| 0 <= i < b.len() implies #[trigger] r.stack(i) == pre.stack(i) by {}
        }
    }

    /// Takes the move back on `board`, the position right after it was played.
    pub fn undo(&self, board: &mut Board)
        requires
            old(board).wf(),
            self.undoable(*old(board)),
        ensures
            self.undone(*old(board), *final(board)),
    {
        let ghost b = *board;
        board.move_num = board.move_num - 1;
        board.zobrist_history.pop();
        let ghost b1 = *board;
        proof {
            Board::lemma_counter_update(b, b1);
            assert(b1.spec_to_move() == b.spec_to_move().other());
        }
        match *self {
            Move::Place(id, bug) => {
                let tile = board.remove(id);
                let ghost c = b1.spec_to_move().spec_index() as int;
                let k = bug.index() as usize;
                let ghost removed = *board;
                let row = board.mut_remaining();
                row[k] = row[k] + 1;
                if tile.bug == Bug::Queen && board.queens[tile.color.index() as usize] == id {
                    board.queens[tile.color.index() as usize] = UNASSIGNED;
                }
                proof {
                    let r = *board;
                    assert(r.remaining[c][k as int] == removed.remaining[c][k as int] + 1);
                    Board::lemma_counter_update(removed, r);
                    Board::lemma_arena_trans(b1, removed, r);
                    assert forall|c2: Color, b2: Bug| #[trigger]
                        r.spec_remaining(c2, b2) as int == b.spec_remaining(c2, b2) as int + if c2
                            == b1.spec_to_move() && b2 == bug {
                            1int
                        } else {
                            0
                        } by {
                        if c2.spec_index() as int == c && b2.spec_index() as int == k {
                            assert(c2 == b1.spec_to_move() && b2 == bug);
                        }
                    }
                    assert(r.stack(id as int) == b.stack(id as int).drop_last());
                }
            },
            Move::Movement(start, end) => {
                let tile = board.remove(end);
                proof {
                    let m = *board;
                    assert(m.stack(start as int) == b1.stack(start as int));
                    if b1.surrounded_already(start as int) {
                        assert forall|d: int| 0 <= d < 6 implies #[trigger] m.adj(start as int, d)
                            != UNASSIGNED by {
                            assert(b1.adj(start as int, d) != UNASSIGNED);
                        }
                    }
                    if b.surrounded_already(start as int) {
                        assert forall|d: int| 0 <= d < 6 implies #[trigger] b1.adj(start as int, d)
                            != UNASSIGNED by {
                            assert(b.adj(start as int, d) != UNASSIGNED);
                        }
                    }
                }
                let ghost mid = *board;
                board.insert(start, tile.bug, tile.color);
                proof {
                    let r = *board;
                    assert forall|i: int|
                        0 <= i < b.len() && i != start && i != end implies #[trigger] r.stack(i)
                        == b.stack(i) by {
                        assert(mid.nodes@[i].tile == b1.nodes@[i].tile);
                        assert(r.nodes@[i].tile == mid.nodes@[i].tile);
                        assert(b1.stack(i) == b.stack(i));
                    }
                    assert(r.stack(end as int) == mid.stack(end as int));
                    assert(b1.stack(end as int) == b.stack(end as int));
                    assert(b1.stack(start as int) == b.stack(start as int));
                    Board::lemma_arena_trans(b1, mid, r);
                }
            },
            Move::Pass => {},
        }
        proof {
            let r = *board;
            Board::lemma_arena_trans(b, b1, r);
            assert forall|i: int| 0 <= i < b.len() implies #[trigger] b1.stack(i) == b.stack(i) by {}
        }
    }
}

/// The end of a game.
#[derive(Copy, Clone, Debug, PartialEq, Eq, Structural)]
pub enum Winner {
    /// The player who made the last move won.
    PlayerJustMoved,
    /// Nobody won.
    Draw,
    /// The player who made the last move lost.
    PlayerToMove,
}

/// The rules of the game, over `Board` positions.
pub struct Game;

/// The move list of `b` before the pass rule: on the first two half-moves, the
/// placements on the fixed opening cell; afterwards the placements, followed, unless
/// the queen is overdue, by the movements, with the articulation points held in place.
pub open spec fn move_list(b: Board) -> Seq<Move> {
    if b.move_num < 2 {
        b.places_at(b.move_num + 1)
    } else if b.spec_queen_required() {
        b.placements_upto(b.len())
    } else {
        b.placements_upto(b.len()) + b.movements_seq(cut_set(b), b.len())
    }
}

/// The pass rule: a side with nothing to do passes.
pub open spec fn with_pass(s: Seq<Move>) -> Seq<Move> {
    if s.len() == 0 {
        seq![Move::Pass]
    } else {
        s
    }
}

impl Game {
    /// Appends every legal move of the side to move, and returns how many there are.
    pub fn generate_moves(board: &Board, moves: &mut Vec<Move>) -> (r: usize)
        requires
            board.wf(),
        ensures
            final(moves)@ == old(moves)@ + with_pass(move_list(*board)),
            r == with_pass(move_list(*board)).len(),
    {
        let ghost start = moves@;
        let start_len = moves.len();
        if board.move_num < 2 {
            board.push_places((board.move_num + 1) as Id, moves);
        } else {
            board.generate_placements(moves);
            if !board.queen_required() {
                board.generate_movements(moves);
                proof {
                    assert(moves@ =~= start + move_list(*board));
                }
            }
        }
        proof {
            assert(moves@ =~= start + move_list(*board));
        }
        if moves.len() == start_len {
            moves.push(Move::Pass);
            proof {
                assert(moves@ =~= start + with_pass(move_list(*board)));
            }
        }
        moves.len() - start_len
    }
}

/// The outcome of a position: both queens surrounded is a draw; the queen of the
/// side to move surrounded is a win for the side that just moved, and the other
/// queen surrounded a win for the side to move; the hash of four half-moves ago
/// coming back is a draw by repetition.
pub open spec fn spec_winner(b: Board) -> Option<Winner> {
    let me = b.spec_to_move().spec_index() as int;
    let n = b.zobrist_history@.len();
    if b.surrounded(0) == 6 && b.surrounded(1) == 6 {
        Some(Winner::Draw)
    } else if b.surrounded(me) == 6 {
        Some(Winner::PlayerJustMoved)
    } else if b.surrounded(1 - me) == 6 {
        Some(Winner::PlayerToMove)
    } else if n > 5 && b.zobrist_history@[n - 5] == b.zobrist_hash {
        Some(Winner::Draw)
    } else {
        None
    }
}

impl Game {
    /// Whether the game is over, and how.
    pub fn get_winner(board: &Board) -> (r: Option<Winner>)
        requires
            board.wf(),
        ensures
            r == spec_winner(*board),
    {
        let queens_surrounded = board.queens_surrounded();
        let me = board.to_move().index() as usize;
        let n = board.zobrist_history.len();
        if queens_surrounded[0] == 6 && queens_surrounded[1] == 6 {
            Some(Winner::Draw)
        } else if queens_surrounded[me] == 6 {
            Some(Winner::PlayerJustMoved)
        } else if queens_surrounded[1 - me] == 6 {
            Some(Winner::PlayerToMove)
        } else if n > 5 && board.zobrist_history[n - 5] == board.zobrist_hash {
            Some(Winner::Draw)
        } else {
            None
        }
    }
}

/// An evaluator that knows nothing but the rules: every position scores zero.
pub struct DumbEvaluator;

impl DumbEvaluator {
    pub fn evaluate(&self, board: &Board) -> (r: i16)
        ensures
            r == 0,
    {
        0
    }
}

/// An evaluator that counts the tiles each side can move and how close each queen
/// is to being surrounded.
#[derive(Copy, Clone, Default)]
pub struct BasicEvaluator;

pub open spec fn bug_value(b: Bug) -> int {
    match b {
        Bug::Queen => 10,
        Bug::Ant => 7,
        Bug::Beetle => 6,
        Bug::Grasshopper => 4,
        Bug::Spider => 3,
    }
}

/// The worth of cell `i` to the side to move: the value of its top bug if that
/// tile can move (it is on a stack, or is no articulation point), positive for the
/// side to move and negative for the opponent.
pub open spec fn tile_score(b: Board, imm: Seq<bool>, i: int) -> int {
    if !b.occupied(i) || (b.stack(i).len() <= 1 && imm[i]) {
        0
    } else if b.top(i)->0.color == b.spec_to_move() {
        bug_value(b.top(i)->0.bug)
    } else {
        -bug_value(b.top(i)->0.bug)
    }
}

pub open spec fn tiles_score(b: Board, imm: Seq<bool>, n: int) -> int
    decreases n,
{
    if n <= 0 {
        0
    } else {
        tiles_score(b, imm, n - 1) + tile_score(b, imm, n - 1)
    }
}

/// Twenty points per tile around the opponent's queen, minus as many per tile
/// around one's own, plus the worth of every cell.
pub open spec fn basic_score(b: Board, imm: Seq<bool>) -> int {
    let me = b.spec_to_move().spec_index() as int;
    20 * (b.surrounded(1 - me) - b.surrounded(me)) + tiles_score(b, imm, b.len())
}

fn value(bug: Bug) -> (r: i32)
    ensures
        r == bug_value(bug),
{
    match bug {
        Bug::Queen => 10,
        Bug::Ant => 7,
        Bug::Beetle => 6,
        Bug::Grasshopper => 4,
        Bug::Spider => 3,
    }
}

impl BasicEvaluator {
    /// The score of `board` for the side to move.
    pub fn evaluate(&self, board: &Board) -> (r: i16)
        requires
            board.wf(),
        ensures
            r as int == basic_score(*board, cut_set(*board)),
    {
        let queens_surrounded = board.queens_surrounded();
        let immovable = board.find_cut_vertexes();
        let ghost imm = immovable.table@;
        let me = board.to_move().index() as usize;
        proof {
            lemma_occupied_nbrs_bound(*board, board.queens[0] as int, 6);
            lemma_occupied_nbrs_bound(*board, board.queens[1] as int, 6);
        }
        let mut score: i32 = (queens_surrounded[1 - me] as i32 - queens_surrounded[me] as i32) * 20;
        let n = board.nodes.len();
        let mut id: usize = 0;
        while id < n
            invariant
                board.wf(),
                n == board.len(),
                0 <= id <= n,
                imm == immovable.table@,
                imm.len() == 256,
                -120 - 10 * id <= score - 20 * (board.surrounded(1 - me as int) - board.surrounded(
                    me as int,
                )) <= 120 + 10 * id,
                score == 20 * (board.surrounded(1 - me as int) - board.surrounded(me as int))
                    + tiles_score(*board, imm, id as int),
                me as int == board.spec_to_move().spec_index(),
                board.surrounded(0) <= 6,
                board.surrounded(1) <= 6,
            decreases n - id,
        {
            if let Some(tile) = &board.nodes[id].tile {
                proof {
                    tile.lemma_stacked();
                }
                if !(tile.underneath.is_none() && immovable.get(id as Id)) {
                    let v = value(tile.bug);
                    if tile.color == board.to_move() {
                        score = score + v;
                    } else {
                        score = score - v;
                    }
                }
            }
            id += 1;
        }
        proof {
            assert forall|i: int| 0 <= i < imm.len() && #[trigger] imm[i] implies i < board.len()
                && board.occupied(i) by {
                assert(immovable.contains(i));
            }
            assert(-32768 < score < 32767);
            assert(basic_score(*board, imm) == score as int);
        }
        score as i16
    }
}

proof fn lemma_place_bugs_allowed(b: Board, k: int)
    ensures
        forall|j: int|
            0 <= j < b.place_bugs_upto(k).len() ==> b.may_place(#[trigger] b.place_bugs_upto(k)[j]),
    decreases k,
{
    if k > 0 {
        lemma_place_bugs_allowed(b, k - 1);
        let p = b.place_bugs_upto(k - 1);
        if b.may_place(all_bugs()[k - 1]) {
            assert forall|j: int| 0 <= j < p.len() + 1 implies b.may_place(
                #[trigger] p.push(all_bugs()[k - 1])[j],
            ) by {
                if j < p.len() {
                    assert(p.push(all_bugs()[k - 1])[j] == p[j]);
                }
            }
        }
    }
}

/// Every move in `places_at(id)` places an allowed bug.
proof fn lemma_places_at_allowed(b: Board, id: int)
    ensures
        forall|j: int|
            0 <= j < b.places_at(id).len() ==> (#[trigger] b.places_at(id)[j] is Place) && b.may_place(
                b.places_at(id)[j]->Place_1,
            ),
{
    lemma_place_bugs_allowed(b, 5);
}

proof fn lemma_placements_allowed(b: Board, n: int)
    ensures
        forall|j: int|
            0 <= j < b.placements_upto(n).len() ==> (#[trigger] b.placements_upto(n)[j] is Place)
                && b.may_place(b.placements_upto(n)[j]->Place_1),
    decreases n,
{
    if n > 1 {
        lemma_placements_allowed(b, n - 1);
        lemma_places_at_allowed(b, n - 1);
        let p = b.placements_upto(n - 1);
        let t = if b.placeable(n - 1) {
            b.places_at(n - 1)
        } else {
            Seq::empty()
        };
        assert forall|j: int| 0 <= j < (p + t).len() implies (#[trigger] (p + t)[j] is Place)
            && b.may_place((p + t)[j]->Place_1) by {
            if j < p.len() {
                assert((p + t)[j] == p[j]);
            } else {
                assert((p + t)[j] == t[j - p.len()]);
            }
        }
    }
}

/// The placements that `generate_moves` lists only use bugs left in the reserve of
/// the side to move; and when its queen is overdue, every listed move places it.
pub proof fn lemma_placement_rules(b: Board, j: int)
    requires
        b.wf(),
        0 <= j < move_list(b).len(),
    ensures
        move_list(b)[j] is Place ==> b.spec_remaining(b.spec_to_move(), move_list(b)[j]->Place_1)
            > 0,
        b.spec_queen_required() ==> move_list(b)[j] is Place && move_list(b)[j]->Place_1
            == Bug::Queen,
{
    let s = move_list(b);
    if b.move_num < 2 {
        lemma_places_at_allowed(b, b.move_num + 1);
    } else if b.spec_queen_required() {
        lemma_placements_allowed(b, b.len());
    } else {
        let p = b.placements_upto(b.len());
        let mv = b.movements_seq(cut_set(b), b.len());
        lemma_placements_allowed(b, b.len());
        if j < p.len() {
            assert(s[j] == p[j]);
        } else {
            assert(s[j] == mv[j - p.len()]);
            b.lemma_no_move_from_cut(cut_set(b), b.len(), j - p.len());
        }
    }
}

/// Move generation is a function of the position: the same position always gives
/// the same moves in the same order.
pub proof fn lemma_generation_deterministic(b1: Board, b2: Board)
    requires
        b1 == b2,
    ensures
        with_pass(move_list(b1)) == with_pass(move_list(b2)),
{
}

impl Board {
    /// Each reserve plus the tiles of its kind on the board make the starting count.
    pub open spec fn reserve_consistent(self) -> bool {
        forall|c: Color, bug: Bug| #[trigger]
            self.spec_remaining(c, bug) as int + self.placed_count(bug, c) == initial_reserve(bug)
                as int
    }
}

proof fn lemma_count_push(s: Seq<(Bug, Color)>, x: (Bug, Color), bug: Bug, c: Color)
    ensures
        count_in_stack(s.push(x), bug, c) == count_in_stack(s, bug, c) + if x == (bug, c) {
            1int
        } else {
            0
        },
{
    assert(s.push(x).drop_last() =~= s);
}

/// A new board has every tile in reserve.
pub proof fn lemma_new_reserve_consistent(b: Board)
    requires
        b.wf(),
        forall|i: int| 0 <= i < b.len() ==> !#[trigger] b.occupied(i),
        forall|c: Color, bug: Bug| #[trigger] b.spec_remaining(c, bug) == initial_reserve(bug),
    ensures
        b.reserve_consistent(),
{
    assert forall|i: int| 0 <= i < b.len() implies #[trigger] b.nodes@[i].tile is None by {
        assert(!b.occupied(i));
    }
    assert forall|c: Color, bug: Bug| #[trigger] b.placed_count(bug, c) == 0 by {
        lemma_count_grow(b.nodes@, 0, b.len(), bug, c);
    }
}

/// Playing a move keeps each reserve plus the tiles of its kind on the board at
/// the starting count.
#[verifier::rlimit(40)]
pub proof fn lemma_apply_keeps_reserve(m: Move, b0: Board, b1: Board)
    requires
        b0.wf(),
        m.applicable(b0),
        m.applied(b0, b1),
        b0.reserve_consistent(),
    ensures
        b1.reserve_consistent(),
{
    assert forall|i: int| b0.len() <= i < b1.len() implies #[trigger] b1.nodes@[i].tile is None by {
        assert(!b1.occupied(i));
    }
    assert forall|c: Color, bug: Bug| #[trigger]
        b1.spec_remaining(c, bug) as int + b1.placed_count(bug, c) == initial_reserve(bug) as int by {
        lemma_count_grow(b1.nodes@, b0.len(), b1.len(), bug, c);
        assert(b0.spec_remaining(c, bug) as int + b0.placed_count(bug, c) == initial_reserve(bug)
            as int);
        match m {
            Move::Place(id, bg) => {
                assert forall|i: int| 0 <= i < b0.len() && i != id implies #[trigger] stack_of(
                    b0.nodes@[i].tile,
                ) == stack_of(b1.nodes@[i].tile) by {
                    assert(b1.stack(i) == b0.stack(i));
                }
                lemma_count_change(b0.nodes@, b1.nodes@, b0.len(), id as int, bug, c);
                lemma_count_push(b0.stack(id as int), (bg, b0.spec_to_move()), bug, c);
            },
            Move::Movement(from, to) => {
                let mid = b0.nodes@.update(from as int, b1.nodes@[from as int]);
                assert forall|i: int| 0 <= i < b0.len() && i != from implies #[trigger] stack_of(
                    b0.nodes@[i].tile,
                ) == stack_of(mid[i].tile) by {}
                lemma_count_change(b0.nodes@, mid, b0.len(), from as int, bug, c);
                assert forall|i: int| 0 <= i < b0.len() && i != to implies #[trigger] stack_of(
                    mid[i].tile,
                ) == stack_of(b1.nodes@[i].tile) by {
                    if i != from {
                        assert(b1.stack(i) == b0.stack(i));
                    }
                }
                lemma_count_change(mid, b1.nodes@, b0.len(), to as int, bug, c);
                b0.lemma_occupied_stack(from as int);
                let s = b0.stack(from as int);
                assert(s.drop_last().push(s.last()) =~= s);
                lemma_count_push(s.drop_last(), s.last(), bug, c);
                lemma_count_push(b0.stack(to as int), s.last(), bug, c);
                assert(stack_of(mid[to as int].tile) == b0.stack(to as int));
            },
            Move::Pass => {
                assert forall|i: int| 0 <= i < b0.len() implies #[trigger] stack_of(
                    b0.nodes@[i].tile,
                ) == stack_of(b1.nodes@[i].tile) by {
                    assert(b1.stack(i) == b0.stack(i));
                }
                lemma_count_same(b0.nodes@, b1.nodes@, b0.len(), bug, c);
            },
        }
    }
}

impl Board {
    /// Cell `c` is a neighbor of cell `a`.
    pub open spec fn next_to(self, a: int, c: int) -> bool {
        exists|d: int| 0 <= d < 6 && #[trigger] self.adj(a, d) == c
    }

    /// `p` is a walk over occupied cells, each the neighbor of the one before.
    pub open spec fn hive_path(self, p: Seq<int>) -> bool {
        &&& p.len() >= 1
        &&& forall|i: int| 0 <= i < p.len() ==> 0 <= #[trigger] p[i] < self.len() && self.occupied(p[i])
        &&& forall|i: int| 0 <= i < p.len() - 1 ==> self.next_to(#[trigger] p[i], p[i + 1])
    }

    /// Any two occupied cells are joined by a walk over occupied cells.
    pub open spec fn hive_connected(self) -> bool {
        forall|x: int, y: int|
            0 <= x < self.len() && 0 <= y < self.len() && #[trigger] self.occupied(x)
                && #[trigger] self.occupied(y) ==> exists|p: Seq<int>|
                self.hive_path(p) && p[0] == x && p.last() == y
    }
}

proof fn lemma_path_concat(b: Board, p: Seq<int>, q: Seq<int>)
    requires
        b.hive_path(p),
        b.hive_path(q),
        b.next_to(p.last(), q[0]),
    ensures
        b.hive_path(p + q),
        (p + q)[0] == p[0],
        (p + q).last() == q.last(),
{
    let r = p + q;
    assert forall|i: int| 0 <= i < r.len() implies 0 <= #[trigger] r[i] < b.len() && b.occupied(r[i]) by {
        if i < p.len() {
            assert(r[i] == p[i]);
        } else {
            assert(r[i] == q[i - p.len()]);
        }
    }
    assert forall|i: int| 0 <= i < r.len() - 1 implies b.next_to(#[trigger] r[i], r[i + 1]) by {
        if i < p.len() - 1 {
            assert(r[i] == p[i] && r[i + 1] == p[i + 1]);
        } else if i == p.len() - 1 {
            assert(r[i] == p.last() && r[i + 1] == q[0]);
        } else {
            assert(r[i] == q[i - p.len()] && r[i + 1] == q[i + 1 - p.len()]);
        }
    }
}

/// A walk of `b0` is still a walk once a tile is added.
proof fn lemma_path_kept(b0: Board, b1: Board, p: Seq<int>)
    requires
        b0.wf(),
        b0.hive_path(p),
        b1.arena_grows(b0),
        forall|i: int| 0 <= i < b0.len() && b0.occupied(i) ==> #[trigger] b1.occupied(i),
    ensures
        b1.hive_path(p),
{
    assert forall|i: int| 0 <= i < p.len() implies 0 <= #[trigger] p[i] < b1.len() && b1.occupied(p[i]) by {
        assert(b0.occupied(p[i]));
    }
    assert forall|i: int| 0 <= i < p.len() - 1 implies b1.next_to(#[trigger] p[i], p[i + 1]) by {
        assert(b0.next_to(p[i], p[i + 1]));
        let d = choose|d: int| 0 <= d < 6 && #[trigger] b0.adj(p[i], d) == p[i + 1];
        assert(b0.occupied(p[i + 1]));
        assert(p[i + 1] != 0);
        assert(b1.adj(p[i], d) == p[i + 1]);
    }
}

/// Placing a tile next to a tile already on the board, or on an empty board, keeps
/// the hive in one piece.
pub proof fn lemma_place_keeps_hive_connected(b0: Board, b1: Board, id: Id, bug: Bug)
    requires
        b0.wf(),
        Move::Place(id, bug).applicable(b0),
        Move::Place(id, bug).applied(b0, b1),
        b0.hive_connected(),
        (exists|d: int| 0 <= d < 6 && #[trigger] b0.occupied(b0.adj(id as int, d) as int)) || (
        forall|i: int| 0 <= i < b0.len() ==> !#[trigger] b0.occupied(i)),
    ensures
        b1.hive_connected(),
{
    let v = id as int;
    b1.lemma_occupied_stack(v);
    assert forall|i: int| 0 <= i < b0.len() && b0.occupied(i) implies #[trigger] b1.occupied(i) by {
        b0.lemma_occupied_stack(i);
        b1.lemma_occupied_stack(i);
    }
    assert forall|i: int| 0 <= i < b1.len() && #[trigger] b1.occupied(i) && i != v implies i < b0.len()
        && b0.occupied(i) by {
        if i < b0.len() {
            b0.lemma_occupied_stack(i);
            b1.lemma_occupied_stack(i);
        }
    }
    assert(b1.hive_path(seq![v]));
    assert forall|x: int, y: int|
        0 <= x < b1.len() && 0 <= y < b1.len() && #[trigger] b1.occupied(x) && #[trigger] b1.occupied(
            y,
        ) implies exists|p: Seq<int>| b1.hive_path(p) && p[0] == x && p.last() == y by {
        if x == v && y == v {
            assert(seq![v][0] == x && seq![v].last() == y);
        } else if x != v && y != v {
            let p = choose|p: Seq<int>| b0.hive_path(p) && p[0] == x && p.last() == y;
            lemma_path_kept(b0, b1, p);
        } else {
            let u = if x == v {
                y
            } else {
                x
            };
            assert(b0.occupied(u));
            let d = choose|d: int| 0 <= d < 6 && #[trigger] b0.occupied(b0.adj(v, d) as int);
            let w = b0.adj(v, d) as int;
            assert(w < b0.len());
            assert(b1.occupied(w));
            assert(b1.adj(v, d) as int == w);
            b1.lemma_link_back(v, d);
            let e = (d + 3) % 6;
            assert(b1.adj(w, e) as int == v);
            if x == v {
                let q = choose|q: Seq<int>| b0.hive_path(q) && q[0] == w && q.last() == y;
                lemma_path_kept(b0, b1, q);
                assert(b1.adj(seq![v].last(), d) == q[0]);
                lemma_path_concat(b1, seq![v], q);
            } else {
                let q = choose|q: Seq<int>| b0.hive_path(q) && q[0] == x && q.last() == w;
                lemma_path_kept(b0, b1, q);
                assert(b1.adj(q.last(), e) == seq![v][0]);
                lemma_path_concat(b1, q, seq![v]);
            }
        }
    }
}

/// A move that was played can always be taken back.
pub proof fn lemma_applied_undoable(m: Move, b0: Board, b1: Board)
    requires
        b0.wf(),
        m.applicable(b0),
        m.applied(b0, b1),
    ensures
        m.undoable(b1),
{
    match m {
        Move::Place(id, bug) => {
            assert(b1.stack(id as int).last() == (bug, b0.spec_to_move()));
            b1.lemma_occupied_stack(id as int);
        },
        Move::Movement(from, to) => {
            b0.lemma_occupied_stack(from as int);
            b1.lemma_occupied_stack(to as int);
            if !b1.occupied(from as int) {
                assert forall|d: int| 0 <= d < 6 implies #[trigger] b1.adj(from as int, d) != UNASSIGNED by {
                    assert(b0.adj(from as int, d) != UNASSIGNED);
                }
            }
        },
        Move::Pass => {},
    }
}

/// Playing a move and taking it back gives the position back: every stack, reserve,
/// queen cell, the move counter, the hash and the hash history, with at most some
/// more empty cells allocated.
/// A queen placed or moved must be the one its color's queen cell refers to (the
/// case in every game that starts from `Board::new` with one queen per side).
pub proof fn lemma_apply_undo(m: Move, b0: Board, b1: Board, b2: Board)
    requires
        b0.wf(),
        m.applicable(b0),
        m.applied(b0, b1),
        m.undone(b1, b2),
        m.keeps_queen_cells(b0),
    ensures
        b2.restores(b0),
{
    match m {
        Move::Place(id, bug) => {
            assert(b0.stack(id as int).push((bug, b0.spec_to_move())).drop_last() =~= b0.stack(id as int));
            assert(b1.stack(id as int).last() == (bug, b0.spec_to_move()));
            b1.lemma_occupied_stack(id as int);
        },
        Move::Movement(from, to) => {
            b0.lemma_occupied_stack(from as int);
            b1.lemma_occupied_stack(to as int);
            let t = b0.stack(from as int).last();
            assert(b0.stack(to as int).push(t).drop_last() =~= b0.stack(to as int));
            assert(b0.stack(from as int).drop_last().push(t) =~= b0.stack(from as int));
            if !b1.occupied(from as int) {
                assert forall|d: int| 0 <= d < 6 implies #[trigger] b1.adj(from as int, d) != UNASSIGNED by {
                    assert(b0.adj(from as int, d) != UNASSIGNED);
                }
            }
        },
        Move::Pass => {},
    }
    assert forall|i: int| 0 <= i < b0.len() implies #[trigger] b2.stack(i) == b0.stack(i) by {
        b0.lemma_occupied_stack(i);
    }
    assert forall|i: int| b0.len() <= i < b1.len() implies !#[trigger] b2.occupied(i) by {
        b1.lemma_occupied_stack(i);
        b2.lemma_occupied_stack(i);
        assert(b2.stack(i) == b1.stack(i));
    }
    Board::lemma_arena_trans(b0, b1, b2);
    assert(b2.zobrist_history@ =~= b0.zobrist_history@);
    assert(b2.queens@ =~= b0.queens@);
    assert forall|i: int| b0.len() <= i < b2.len() implies #[trigger] b2.nodes@[i].tile is None by {
        assert(!b2.occupied(i));
    }
    lemma_hash_grow(b2.nodes@, b0.len(), b2.len());
    assert forall|i: int| 0 <= i < b0.len() implies #[trigger] stack_of(b2.nodes@[i].tile) == stack_of(
        b0.nodes@[i].tile,
    ) by {
        assert(b2.stack(i) == b0.stack(i));
    }
    lemma_hash_same_stacks(b2.nodes@, b0.nodes@, b0.len());
    assert(b2.zobrist_hash == b0.zobrist_hash);
    assert forall|c: Color, b: Bug| #[trigger] b2.spec_remaining(c, b) == b0.spec_remaining(c, b) by {
        assert(b2.spec_remaining(c, b) as int == b1.spec_remaining(c, b) as int + (if m is Place
            && c == b0.spec_to_move() && b == m->Place_1 {
            1int
        } else {
            0
        }));
        assert(b1.spec_remaining(c, b) as int == b0.spec_remaining(c, b) as int - (if m is Place
            && c == b0.spec_to_move() && b == m->Place_1 {
            1int
        } else {
            0
        }));
    }
    assert(b2.arena_grows(b0));
    assert(b2.queens == b0.queens);
    assert(b2.move_num == b0.move_num);
}

} // verus!
