use nokamute::zobrist::zobrist;
use nokamute::{BasicEvaluator, Board, Bug, Color, DumbEvaluator, Game, Id, Loc, Move, Winner};

const ORIGIN: Id = 1;

fn insert_loc(board: &mut Board, loc: Loc, bug: Bug, color: Color) {
    let id = board.allocate(loc);
    board.insert(id, bug, color);
}

fn remove_loc(board: &mut Board, loc: Loc) {
    let id = board.allocate(loc);
    board.remove(id);
}

fn fill_board(board: &mut Board, locs: &[Loc], bug: Bug) {
    for &loc in locs {
        let id = board.allocate(loc);
        board.insert(id, bug, Color::Black);
    }
}

fn assert_placements(board: &Board, moves: &[Move], expected: &[(Loc, Bug)]) {
    let mut actual_pairs = Vec::new();
    for m in moves.iter() {
        if let Move::Place(actual_id, actual_bug) = m {
            actual_pairs.push((board.loc(*actual_id), *actual_bug));
        }
    }
    actual_pairs.sort();
    let mut expected_pairs = Vec::new();
    expected_pairs.extend(expected);
    expected_pairs.sort();
    assert_eq!(actual_pairs, expected_pairs);
}

fn assert_movements(board: &Board, moves: &[Move], start: Loc, ends: &[Loc]) {
    let mut actual_ends = Vec::new();
    for m in moves.iter() {
        if let Move::Movement(actual_start, actual_end) = m {
            assert_eq!(board.loc(*actual_start), start);
            actual_ends.push(board.loc(*actual_end));
        }
    }
    actual_ends.sort();
    let mut expected_ends = Vec::new();
    expected_ends.extend(ends);
    expected_ends.sort();
    assert_eq!(actual_ends, expected_ends);
}

fn play(board: &mut Board, m: Move) {
    m.apply(board);
}

fn place(board: &mut Board, loc: Loc, bug: Bug) {
    let id = board.id(loc);
    play(board, Move::Place(id, bug));
}

fn moves_of(board: &Board) -> Vec<Move> {
    let mut moves = Vec::new();
    Game::generate_moves(board, &mut moves);
    moves
}

#[test]
fn test_gen_placement() {
    let mut board = Board::default();
    for i in 1..5 {
        board.remaining[0][i] = 0;
        board.remaining[1][i] = 0;
    }
    board.insert(1, Bug::Queen, Color::Black);
    board.insert(2, Bug::Queen, Color::White);
    let mut moves = Vec::with_capacity(100);
    board.generate_placements(&mut moves);
    assert_placements(
        &board,
        &moves,
        &[((-1, -1), Bug::Queen), ((-1, 0), Bug::Queen), ((0, 1), Bug::Queen)],
    );
}

#[test]
fn test_cut_vertex() {
    let mut board = Board::default();
    fill_board(
        &mut board,
        &[(0, 0), (0, 1), (1, 0), (2, 1), (1, 2), (2, 2), (-1, 0), (-2, 0), (3, 1)],
        Bug::Queen,
    );
    let cuts = board.find_cut_vertexes();
    let mut is_cut_loc = |loc: Loc| {
        let id = board.id(loc);
        cuts.get(id)
    };
    // Line 1
    assert!(is_cut_loc((-1, 0)));
    assert!(!is_cut_loc((-2, 0)));
    assert!(!is_cut_loc((0, 0)));
    assert!(!is_cut_loc((1, 0)));
    // Line 2
    assert!(!is_cut_loc((0, 1)));
    assert!(is_cut_loc((2, 1)));
    assert!(!is_cut_loc((3, 1)));
    // Line 3
    assert!(!is_cut_loc((1, 2)));
    assert!(!is_cut_loc((2, 2)));
}

#[test]
fn test_slideable() {
    let mut board = Board::default();
    let x = board.allocate((0, 0));
    // One neighbor.
    insert_loc(&mut board, (0, 0), Bug::Queen, Color::Black);
    insert_loc(&mut board, (1, 0), Bug::Queen, Color::Black);
    assert_eq!(
        [Some(board.allocate((0, -1))), Some(board.allocate((1, 1))), None, None],
        board.slideable_adjacent(x, x)
    );
    // Two adjacent neighbors.
    insert_loc(&mut board, (1, 1), Bug::Queen, Color::Black);
    assert_eq!(
        [Some(board.allocate((0, -1))), Some(board.allocate((0, 1))), None, None],
        board.slideable_adjacent(x, x)
    );
    // Four adjacent neighbors.
    insert_loc(&mut board, (0, 1), Bug::Queen, Color::Black);
    insert_loc(&mut board, (-1, 0), Bug::Queen, Color::Black);
    assert_eq!(
        [Some(board.allocate((-1, -1))), Some(board.allocate((0, -1))), None, None],
        board.slideable_adjacent(x, x)
    );
    // Five adjacent neighbors.
    insert_loc(&mut board, (-1, -1), Bug::Queen, Color::Black);
    assert_eq!([None, None, None, None], board.slideable_adjacent(x, x));
    // 2 separated groups of neighbors.
    remove_loc(&mut board, (0, 1));
    assert_eq!([None, None, None, None], board.slideable_adjacent(x, x));
    // 2 opposite single neighbors
    remove_loc(&mut board, (1, 1));
    remove_loc(&mut board, (-1, -1));
    assert_eq!(
        [
            Some(board.allocate((-1, -1))),
            Some(board.allocate((0, -1))),
            Some(board.allocate((1, 1))),
            Some(board.allocate((0, 1)))
        ],
        board.slideable_adjacent(x, x)
    );
}

#[test]
fn test_generate_jumps() {
    let mut board = Board::default();
    fill_board(&mut board, &[(0, 0), (0, 1), (0, 3), (1, 0), (2, 0)], Bug::Grasshopper);
    let mut moves = Vec::with_capacity(6);
    board.generate_jumps(ORIGIN, &mut moves);
    assert_movements(&board, &moves, (0, 0), &[(0, 2), (3, 0)]);
}

#[test]
fn test_generate_beetle() {
    let mut board = Board::default();
    fill_board(&mut board, &[(0, 0), (1, 1)], Bug::Beetle);
    let mut moves = Vec::with_capacity(6);
    board.generate_walk1(ORIGIN, &mut moves);
    board.generate_walk_up(ORIGIN, &mut moves);
    assert_movements(&board, &moves, (0, 0), &[(0, 1), (1, 0), (1, 1)]);
}

#[test]
fn test_generate_walk3() {
    let mut board = Board::default();
    fill_board(
        &mut board,
        &[(-1, -1), (0, 0), (2, 0), (0, 1), (3, 1), (1, 2), (2, 2), (3, 2)],
        Bug::Spider,
    );
    let mut moves = Vec::with_capacity(6);
    let start = board.allocate((-1, -1));
    board.generate_walk3(start, &mut moves);
    assert_movements(&board, &moves, (-1, -1), &[(0, 2), (1, -1), (1, 1), (2, 1)]);

    remove_loc(&mut board, (-1, -1));
    insert_loc(&mut board, (1, 1), Bug::Spider, Color::Black);
    moves = Vec::with_capacity(6);
    let start = board.allocate((1, 1));
    board.generate_walk3(start, &mut moves);
    assert_movements(&board, &moves, (1, 1), &[(-1, -1), (0, -1), (1, -1), (2, -1)]);
}

#[test]
fn test_generate_walk_all() {
    let mut board = Board::default();
    fill_board(&mut board, &[(-1, -1), (0, 0), (0, 1), (2, 1), (1, 2), (2, 2)], Bug::Ant);
    let mut moves = Vec::with_capacity(20);
    let start = board.allocate((-1, -1));
    board.generate_walk_all(start, &mut moves);
    assert_movements(
        &board,
        &moves,
        (-1, -1),
        &[
            (0, -1),
            (-1, 0),
            (1, 0),
            (2, 0),
            (-1, 1),
            (3, 1),
            (0, 2),
            (3, 2),
            (1, 3),
            (2, 3),
            (3, 3),
        ],
    );
}

#[test]
fn test_winner() {
    // Draw by stalemate
    let mut board = Board::default();
    let x1 = board.allocate((-1, -1));
    let x2 = board.allocate((-1, 0));
    let y1 = board.allocate((1, 1));
    let y2 = board.allocate((1, 0));
    Move::Place(ORIGIN, Bug::Spider).apply(&mut board);
    assert_eq!(None, Game::get_winner(&board));
    Move::Place(x1, Bug::Queen).apply(&mut board);
    assert_eq!(None, Game::get_winner(&board));
    Move::Place(y1, Bug::Queen).apply(&mut board);
    assert_eq!(None, Game::get_winner(&board));
    Move::Movement(x1, x2).apply(&mut board);
    assert_eq!(None, Game::get_winner(&board));
    Move::Movement(y1, y2).apply(&mut board);
    assert_eq!(None, Game::get_winner(&board));
    Move::Movement(x2, x1).apply(&mut board);
    assert_eq!(None, Game::get_winner(&board));
    Move::Movement(y2, y1).apply(&mut board);
    // This is the first repeat of a board position, a slightly aggressive
    // interpretation of chess stalemate rules.
    assert_eq!(Some(Winner::Draw), Game::get_winner(&board));
    // Undo reverts zobrist and history.
    Move::Movement(y2, y1).undo(&mut board);
    assert_eq!(None, Game::get_winner(&board));
}

/// A middle game: Black queen at (0, 0) with five occupied neighbors, White to move,
/// and a White ant at (2, 1) that can slide round to the sixth.
fn nearly_surrounded() -> Board {
    let mut board = Board::default();
    place(&mut board, (0, 0), Bug::Queen);
    place(&mut board, (1, 0), Bug::Queen);
    place(&mut board, (-1, 0), Bug::Spider);
    place(&mut board, (1, 1), Bug::Grasshopper);
    place(&mut board, (0, 1), Bug::Beetle);
    place(&mut board, (0, -1), Bug::Grasshopper);
    place(&mut board, (-1, 1), Bug::Spider);
    place(&mut board, (2, 1), Bug::Ant);
    play(&mut board, Move::Pass);
    board
}

#[test]
fn win_when_queen_surrounded() {
    let mut board = nearly_surrounded();
    assert_eq!(board.to_move(), Color::White);
    assert_eq!(None, Game::get_winner(&board));
    assert_eq!(board.queens_surrounded(), [5, 4]);
    let from = board.id((2, 1));
    let to = board.id((-1, -1));
    let m = Move::Movement(from, to);
    assert!(moves_of(&board).contains(&m));
    m.apply(&mut board);
    assert_eq!(board.queens_surrounded(), [6, 3]);
    assert_eq!(Some(Winner::PlayerJustMoved), Game::get_winner(&board));
    m.undo(&mut board);
    assert_eq!(None, Game::get_winner(&board));
}

#[test]
fn both_queens_surrounded_is_draw() {
    let mut board = Board::default();
    for loc in [(0, 0), (1, 0)] {
        place(&mut board, loc, Bug::Queen);
    }
    for loc in [(-1, -1), (0, -1), (1, 1), (0, 1), (-1, 0), (1, -1), (2, 0), (2, 1)] {
        insert_loc(&mut board, loc, Bug::Ant, Color::Black);
    }
    assert_eq!(board.queens_surrounded(), [6, 6]);
    assert_eq!(Some(Winner::Draw), Game::get_winner(&board));
}

#[test]
fn own_queen_surrounded_by_last_move_loses() {
    let mut board = Board::default();
    place(&mut board, (0, 0), Bug::Queen);
    place(&mut board, (1, 0), Bug::Queen);
    // White's queen at (1, 0) gets surrounded while Black is to move.
    for loc in [(0, -1), (1, -1), (2, 0), (2, 1), (1, 1)] {
        insert_loc(&mut board, loc, Bug::Ant, Color::White);
    }
    assert_eq!(board.to_move(), Color::Black);
    assert_eq!(Some(Winner::PlayerToMove), Game::get_winner(&board));
}

#[test]
fn apply_undo_restores_every_generated_move() {
    let board = nearly_surrounded();
    let moves = moves_of(&board);
    assert!(moves.len() > 1);
    for m in moves {
        let mut b = board.clone();
        m.apply(&mut b);
        assert_eq!(b.move_num, board.move_num + 1);
        m.undo(&mut b);
        assert_eq!(b.move_num, board.move_num);
        assert_eq!(b.zobrist_hash, board.zobrist_hash);
        assert_eq!(b.zobrist_history, board.zobrist_history);
        assert_eq!(b.remaining, board.remaining);
        assert_eq!(b.queens, board.queens);
        assert_eq!(stacks(&b, board.nodes.len()), stacks(&board, board.nodes.len()));
        for id in board.nodes.len()..b.nodes.len() {
            assert!(b.get(id as Id).is_none());
        }
    }
}

fn stack_of(board: &Board, id: Id) -> Vec<(Bug, Color)> {
    let mut out = Vec::new();
    let mut cur = board.get(id);
    while let Some(t) = cur {
        out.push((t.bug, t.color));
        cur = t.underneath.as_deref();
    }
    out.reverse();
    out
}

fn stacks(board: &Board, n: usize) -> Vec<Vec<(Bug, Color)>> {
    (0..n).map(|i| stack_of(board, i as Id)).collect()
}

fn xor_of_tiles(board: &Board) -> u64 {
    let mut h = 0u64;
    for id in 0..board.nodes.len() {
        for (height, (bug, color)) in stack_of(board, id as Id).into_iter().enumerate() {
            h ^= zobrist(id as u8, bug.index(), color.index(), height as u32);
        }
    }
    h
}

#[test]
fn hash_is_xor_of_tiles() {
    let mut board = nearly_surrounded();
    assert_ne!(board.zobrist_hash, 0);
    assert_eq!(board.zobrist_hash, xor_of_tiles(&board));
    // A beetle climbing adds a tile at height 1.
    let beetle = board.id((0, 1));
    let queen = board.id((0, 0));
    let before = board.zobrist_hash;
    board.insert(queen, Bug::Beetle, Color::Black);
    assert_eq!(board.zobrist_hash, xor_of_tiles(&board));
    assert_eq!(
        board.zobrist_hash,
        before ^ zobrist(queen, Bug::Beetle.index(), Color::Black.index(), 1)
    );
    board.remove(queen);
    assert_eq!(board.zobrist_hash, before);
    assert_ne!(zobrist(beetle, 4, 0, 0), zobrist(beetle, 4, 0, 1));
}

#[test]
fn zobrist_words_differ() {
    assert_ne!(zobrist(1, 0, 0, 0), zobrist(1, 0, 1, 0));
    assert_ne!(zobrist(1, 0, 0, 0), zobrist(2, 0, 0, 0));
    assert_eq!(zobrist(3, 2, 1, 1), zobrist(3, 2, 1, 0).rotate_left(1));
    assert_eq!(zobrist(3, 2, 1, 64), zobrist(3, 2, 1, 0));
}

#[test]
fn reserve_counts_placed_tiles() {
    let mut board = Board::default();
    place(&mut board, (0, 0), Bug::Ant);
    place(&mut board, (1, 0), Bug::Spider);
    place(&mut board, (-1, 0), Bug::Ant);
    assert_eq!(board.remaining[0], [1, 3, 2, 1, 2]);
    assert_eq!(board.remaining[1], [1, 3, 1, 3, 2]);
    let id = board.id((-1, 0));
    Move::Place(id, Bug::Ant).undo(&mut board);
    assert_eq!(board.remaining[0], [1, 3, 2, 2, 2]);
}

#[test]
fn opening_places_on_fixed_cells() {
    let mut board = Board::default();
    let moves = moves_of(&board);
    assert_eq!(
        moves,
        vec![
            Move::Place(1, Bug::Queen),
            Move::Place(1, Bug::Grasshopper),
            Move::Place(1, Bug::Spider),
            Move::Place(1, Bug::Ant),
            Move::Place(1, Bug::Beetle),
        ]
    );
    play(&mut board, Move::Place(1, Bug::Ant));
    let moves = moves_of(&board);
    assert_eq!(moves.len(), 5);
    assert!(moves.iter().all(|m| matches!(m, Move::Place(2, _))));
    assert_eq!(board.loc(2), (1, 0));
}

#[test]
fn queen_required_by_fourth_move() {
    let mut board = Board::default();
    place(&mut board, (0, 0), Bug::Ant);
    place(&mut board, (1, 0), Bug::Ant);
    place(&mut board, (-1, 0), Bug::Spider);
    place(&mut board, (2, 0), Bug::Spider);
    place(&mut board, (-2, 0), Bug::Beetle);
    place(&mut board, (3, 0), Bug::Beetle);
    assert!(board.queen_required());
    let moves = moves_of(&board);
    assert!(!moves.is_empty());
    assert!(moves.iter().all(|m| matches!(m, Move::Place(_, Bug::Queen))));
}

#[test]
fn no_queen_placement_once_placed() {
    let board = nearly_surrounded();
    assert_eq!(board.remaining[1][0], 0);
    let moves = moves_of(&board);
    assert!(moves.iter().any(|m| matches!(m, Move::Place(_, _))));
    assert!(!moves.iter().any(|m| matches!(m, Move::Place(_, Bug::Queen))));
}

#[test]
fn pass_when_nothing_to_do() {
    let mut board = Board::default();
    place(&mut board, (0, 0), Bug::Queen);
    place(&mut board, (1, 0), Bug::Queen);
    play(&mut board, Move::Pass);
    place(&mut board, (-1, 0), Bug::Ant);
    board.remaining[0] = [0; 5];
    // Black's only tile holds the hive together.
    let moves = moves_of(&board);
    assert_eq!(moves, vec![Move::Pass]);
    let mut moves = Vec::new();
    assert_eq!(Game::generate_moves(&board, &mut moves), 1);
}

#[test]
fn generation_is_deterministic() {
    let board = nearly_surrounded();
    let a = moves_of(&board);
    let b = moves_of(&board.clone());
    assert_eq!(a, b);
    assert_eq!(a, moves_of(&board));
}

#[test]
fn queen_moves_are_its_slides() {
    let mut board = Board::default();
    fill_board(&mut board, &[(0, 0), (1, 0), (1, 1)], Bug::Queen);
    let mut moves = Vec::new();
    board.generate_walk1(ORIGIN, &mut moves);
    let slides = board.slideable_adjacent(ORIGIN, ORIGIN);
    let expected: Vec<Move> = slides.iter().flatten().map(|&t| Move::Movement(ORIGIN, t)).collect();
    assert_eq!(moves, expected);
    assert_movements(&board, &moves, (0, 0), &[(0, -1), (0, 1)]);
}

#[test]
fn beetle_on_stack_steps_anywhere() {
    let mut board = Board::default();
    fill_board(&mut board, &[(0, 0), (1, 0)], Bug::Queen);
    board.insert(ORIGIN, Bug::Beetle, Color::Black);
    let mut moves = Vec::new();
    board.generate_stack_walking(ORIGIN, &mut moves);
    assert_movements(&board, &moves, (0, 0), &[(-1, -1), (0, -1), (1, 0), (1, 1), (0, 1), (-1, 0)]);
}

#[test]
fn cut_vertex_tile_does_not_move() {
    let mut board = Board::default();
    place(&mut board, (0, 0), Bug::Queen);
    place(&mut board, (1, 0), Bug::Queen);
    place(&mut board, (-1, 0), Bug::Ant);
    play(&mut board, Move::Pass);
    // Black to move; its queen at (0, 0) joins the ant to the white queen.
    let queen = board.id((0, 0));
    let moves = moves_of(&board);
    assert!(!moves.iter().any(|m| matches!(m, Move::Movement(from, _) if *from == queen)));
    assert!(moves.iter().any(|m| matches!(m, Move::Movement(_, _))));
    // A beetle on top of that queen may still move.
    board.insert(queen, Bug::Beetle, Color::Black);
    let moves = moves_of(&board);
    assert_eq!(moves.iter().filter(|m| matches!(m, Move::Movement(from, _) if *from == queen)).count(), 6);
}

#[test]
fn grasshopper_lands_on_empty_cell() {
    let mut board = Board::default();
    fill_board(&mut board, &[(0, 0), (1, 0), (2, 0), (3, 0), (-1, -1)], Bug::Grasshopper);
    let mut moves = Vec::new();
    board.generate_jumps(ORIGIN, &mut moves);
    assert_movements(&board, &moves, (0, 0), &[(4, 0), (-2, -2)]);
    for m in moves {
        if let Move::Movement(_, to) = m {
            assert!(board.get(to).is_none());
        }
    }
}

#[test]
fn basic_evaluation() {
    let mut board = Board::default();
    place(&mut board, (0, 0), Bug::Queen);
    place(&mut board, (1, 0), Bug::Queen);
    place(&mut board, (-1, 0), Bug::Ant);
    // White to move: queens 2 and 1 surrounded, black queen pinned, white queen +10,
    // black ant -7.
    assert_eq!(BasicEvaluator.evaluate(&board), 20 * (2 - 1) + 10 - 7);
    assert_eq!(DumbEvaluator.evaluate(&board), 0);
}

#[test]
fn picture_of_two_queens() {
    let mut board = Board::default();
    place(&mut board, (0, 0), Bug::Queen);
    place(&mut board, (1, 0), Bug::Queen);
    assert_eq!(board.bounding_box(), (0, 2, 0, 1));
    let expected = String::new()
        + "\u{ff0e}\u{ff0e}\u{ff0e}\u{ff0e}\u{ff0e}\n"
        + " \u{ff0e}\u{1f41d}\x1b[3m\u{1f41d}\x1b[m\u{ff0e}\n"
        + "\u{ff0e}\u{ff0e}\u{ff0e}\u{ff0e}\n";
    assert_eq!(board.fancy_fmt(), expected);
}

#[test]
fn bounding_box_of_empty_board() {
    let board = Board::default();
    assert_eq!(board.bounding_box(), (0, 1, 0, 1));
}

#[test]
fn default_is_the_empty_start() {
    let board = Board::default();
    assert_eq!(board.nodes.len(), 3);
    assert_eq!(board.loc(0), (127, 127));
    assert_eq!(board.loc(1), (0, 0));
    assert_eq!(board.loc(2), (1, 0));
    assert_eq!(board.adjacent(1)[2], 2);
    assert_eq!(board.adjacent(2)[5], 1);
    assert!((0..3).all(|i| board.get(i).is_none()));
    assert_eq!(board.remaining, [[1, 3, 2, 3, 2], [1, 3, 2, 3, 2]]);
    assert_eq!(board.queens, [0, 0]);
    assert_eq!(board.move_num, 0);
    assert_eq!(board.zobrist_hash, 0);
    assert!(board.zobrist_history.is_empty());
}

#[test]
fn pass_allocates_nothing() {
    let mut board = nearly_surrounded();
    let n = board.nodes.len();
    let hash = board.zobrist_hash;
    Move::Pass.apply(&mut board);
    assert_eq!(board.nodes.len(), n);
    assert_eq!(board.zobrist_history.last(), Some(&hash));
}
