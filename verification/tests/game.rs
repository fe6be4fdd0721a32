use reversi::board::Board;
use reversi::board::Colour;
use reversi::board::Direction;
use reversi::board::Position;
use reversi::engine::Engine;
use reversi::monte::MonteCarloPlayer;
use reversi::player::BasicPlayer;
use reversi::player::RandomPlayer;
use reversi::player::SeededRandomPlayer;
use reversi::board::direction_at;

fn boards_equal(a: &Board, b: &Board) -> bool {
    for x in 0..8 {
        for y in 0..8 {
            if a.get(Position::new(x, y)) != b.get(Position::new(x, y)) {
                return false;
            }
        }
    }
    true
}

fn occupied(b: &Board) -> usize {
    let s = b.get_score();
    s.0 + s.1
}

#[test]
fn opposite_swaps_colours() {
    assert_eq!(Colour::Light.opposite(), Colour::Dark);
    assert_eq!(Colour::Dark.opposite(), Colour::Light);
}

#[test]
fn position_accessors() {
    let p = Position::new(3, 5);
    assert_eq!(p.get_x(), 3);
    assert_eq!(p.get_y(), 5);
}

#[test]
fn starting_board_layout() {
    let b = Board::default();
    assert_eq!(b.get(Position::new(3, 3)), Some(Colour::Light));
    assert_eq!(b.get(Position::new(4, 4)), Some(Colour::Light));
    assert_eq!(b.get(Position::new(4, 3)), Some(Colour::Dark));
    assert_eq!(b.get(Position::new(3, 4)), Some(Colour::Dark));
    assert_eq!(b.get_score(), (2, 2));
    assert_eq!(occupied(&b), 4);
}

#[test]
fn compass_order_is_fixed() {
    assert_eq!(direction_at(0), Direction { dx: 0, dy: -1 });
    assert_eq!(direction_at(1), Direction { dx: -1, dy: 0 });
    assert_eq!(direction_at(2), Direction { dx: 1, dy: 0 });
    assert_eq!(direction_at(3), Direction { dx: 0, dy: 1 });
    assert_eq!(direction_at(4), Direction { dx: 1, dy: -1 });
    assert_eq!(direction_at(5), Direction { dx: -1, dy: -1 });
    assert_eq!(direction_at(6), Direction { dx: -1, dy: 1 });
    assert_eq!(direction_at(7), Direction { dx: 1, dy: 1 });
}

#[test]
fn moves_from_one_cell_follow_compass_order() {
    let b = Board::default();
    let from = b.get_moves_from_cell(Colour::Dark, Position::new(3, 4));
    assert_eq!(from.len(), 2);
    assert_eq!(from[0].dir, Direction { dx: 0, dy: -1 });
    assert_eq!(from[1].dir, Direction { dx: 1, dy: 0 });
    assert_eq!(from[0].origin, Position::new(3, 4));
    assert_eq!(from[0].team, Colour::Dark);
}

#[test]
fn starting_board_dark_has_four_moves() {
    let b = Board::default();
    assert_eq!(b.get_moves(Colour::Dark).len(), 4);
    assert_eq!(b.get_moves(Colour::Light).len(), 4);
}

#[test]
fn line_runs_to_the_edge() {
    let line = Board::get_line(Position::new(0, 0), Direction { dx: 1, dy: 0 });
    assert_eq!(line.len(), 7);
    assert_eq!(line[0], Position::new(1, 0));
    assert_eq!(line[6], Position::new(7, 0));
    let diag = Board::get_line(Position::new(4, 4), Direction { dx: 1, dy: 1 });
    assert_eq!(diag.len(), 3);
    assert_eq!(diag[2], Position::new(7, 7));
    let up = Board::get_line(Position::new(0, 0), Direction { dx: 0, dy: -1 });
    assert_eq!(up.len(), 0);
}

#[test]
fn landing_found_on_starting_board() {
    let b = Board::default();
    let landing = b.get_empty_at_end_of_line(Position::new(3, 4), Direction { dx: 0, dy: -1 });
    assert_eq!(landing, Some(Position::new(3, 2)));
}

#[test]
fn no_landing_from_empty_origin() {
    let b = Board::default();
    let landing = b.get_empty_at_end_of_line(Position::new(0, 0), Direction { dx: 1, dy: 1 });
    assert_eq!(landing, None);
}

#[test]
fn no_landing_without_capture() {
    let b = Board::default();
    // Walking away from the centre, the first cell is empty: no capture.
    let landing = b.get_empty_at_end_of_line(Position::new(3, 4), Direction { dx: 0, dy: 1 });
    assert_eq!(landing, None);
}

#[test]
fn apply_first_move_flips_the_run() {
    let mut b = Board::default();
    let moves = b.get_moves(Colour::Dark);
    // Cells scan in row-major order, directions in compass order, so the first
    // move is from (3, 4) heading (0, -1) with its landing on (3, 2).
    let m = moves[0];
    assert_eq!(m.origin, Position::new(3, 4));
    assert_eq!(m.dir, Direction { dx: 0, dy: -1 });
    assert_eq!(m.team, Colour::Dark);
    b.apply_move(m);
    assert_eq!(b.get(Position::new(3, 2)), Some(Colour::Dark));
    assert_eq!(b.get(Position::new(3, 3)), Some(Colour::Dark));
    assert_eq!(b.get(Position::new(3, 4)), Some(Colour::Dark));
    assert_eq!(b.get_score(), (4, 1));
}

#[test]
fn every_legal_move_claims_exactly_one_empty_cell() {
    let b = Board::default();
    for m in b.get_moves(Colour::Dark) {
        let mut c = b.duplicate();
        let before = occupied(&c);
        c.apply_move(m);
        assert_eq!(occupied(&c), before + 1);
        assert_eq!(b.get(m.origin), Some(Colour::Dark));
    }
}

#[test]
fn score_never_exceeds_the_board() {
    let mut e = Engine::new(RandomPlayer {}, RandomPlayer {}, Board::default());
    e.run_to_end();
    let s = e.get_board().get_score();
    assert!(s.0 + s.1 <= 64);
    assert!(s.0 + s.1 >= 5);
}

#[test]
fn seeded_games_replay_identically() {
    let b1 = Board::default();
    let b2 = Board::default();
    let mut e1 = Engine::new(
        SeededRandomPlayer::from_seed(11),
        SeededRandomPlayer::from_seed(97),
        b1,
    );
    let mut e2 = Engine::new(
        SeededRandomPlayer::from_seed(11),
        SeededRandomPlayer::from_seed(97),
        b2,
    );
    e1.run_to_end();
    e2.run_to_end();
    assert!(boards_equal(e1.get_board(), e2.get_board()));
    assert_eq!(e1.get_board().get_score(), e2.get_board().get_score());
}

#[test]
fn double_pass_terminates_without_touching_the_board() {
    let empty = Board::new();
    let mut e = Engine::new(BasicPlayer {}, BasicPlayer {}, Board::new());
    e.run_to_end();
    assert!(!e.dark_move && !e.light_move);
    assert!(boards_equal(e.get_board(), &empty));
    assert_eq!(e.get_board().get_score(), (0, 0));
}

#[test]
fn full_game_with_basic_players_terminates() {
    let mut e = Engine::new(BasicPlayer {}, BasicPlayer {}, Board::default());
    e.run_to_end();
    assert!(!e.dark_move && !e.light_move);
    let s = e.get_board().get_score();
    assert!(s.0 + s.1 <= 64);
    assert!(s.0 + s.1 > 4);
    // Once over, neither colour has a legal move left.
    assert_eq!(e.get_board().get_moves(Colour::Dark).len(), 0);
    assert_eq!(e.get_board().get_moves(Colour::Light).len(), 0);
}

#[test]
fn depth_zero_tree_has_one_leaf_per_move() {
    let b = Board::default();
    let moves = b.get_moves(Colour::Dark);
    let mut p = MonteCarloPlayer::new();
    p.build_tree(&b, 0, Colour::Dark);
    assert_eq!(p.leaves.len(), 4);
    assert_eq!(p.leaves.len(), moves.len());
    assert_eq!(p.cache.len(), 1 + moves.len());
    assert!(boards_equal(&p.cache[0].content, &b));
    for (k, &leaf) in p.leaves.iter().enumerate() {
        assert_eq!(leaf, 1 + k);
        let node = &p.cache[leaf];
        assert_eq!(node.parent, Some(0));
        assert_eq!(node.mov, Some(moves[k]));
        // The leaf's board is the root's board after exactly that one move.
        let mut expect = b.duplicate();
        expect.apply_move(moves[k]);
        assert!(boards_equal(&node.content, &expect));
        assert_eq!(node.plays, 0);
        assert_eq!(node.wins, 0);
    }
}

#[test]
fn tree_build_is_deterministic() {
    let b = Board::default();
    let mut p1 = MonteCarloPlayer::new();
    let mut p2 = MonteCarloPlayer::new();
    p1.build_tree(&b, 0, Colour::Dark);
    p2.build_tree(&b, 0, Colour::Dark);
    assert_eq!(p1.cache.len(), p2.cache.len());
    assert_eq!(p1.leaves, p2.leaves);
    for i in 0..p1.cache.len() {
        assert_eq!(p1.cache[i].mov, p2.cache[i].mov);
        assert_eq!(p1.cache[i].parent, p2.cache[i].parent);
    }
}

#[test]
fn depth_one_tree_expands_every_child() {
    let b = Board::default();
    let mut p = MonteCarloPlayer::new();
    p.build_tree(&b, 1, Colour::Dark);
    // The root's children are exactly Dark's moves, each expanded for Light:
    // its children are exactly the legal Light replies on its board, and those
    // grandchildren are exactly the recorded leaves.
    let root_moves = b.get_moves(Colour::Dark);
    let children: Vec<usize> = (0..p.cache.len())
        .filter(|&c| p.cache[c].parent == Some(0))
        .collect();
    assert_eq!(children.len(), root_moves.len());
    let mut grandchildren = 0;
    for &c in &children {
        let replies = p.cache[c].content.get_moves(Colour::Light);
        let kids: Vec<usize> = (0..p.cache.len())
            .filter(|&g| p.cache[g].parent == Some(c))
            .collect();
        assert_eq!(kids.len(), replies.len());
        for (j, &g) in kids.iter().enumerate() {
            assert_eq!(p.cache[g].mov, Some(replies[j]));
            assert!(p.leaves.contains(&g));
        }
        grandchildren += kids.len();
    }
    assert_eq!(p.leaves.len(), grandchildren);
}

#[test]
fn rebuilding_clears_the_arena() {
    let b = Board::default();
    let mut p = MonteCarloPlayer::new();
    p.build_tree(&b, 1, Colour::Dark);
    let deep_nodes = p.cache.len();
    p.build_tree(&b, 0, Colour::Dark);
    assert_eq!(p.cache.len(), 5);
    assert!(deep_nodes > p.cache.len());
}

#[test]
fn backpropagation_counts_each_leaf_once_on_every_level() {
    let b = Board::default();
    let mut p = MonteCarloPlayer::new();
    p.build_tree(&b, 1, Colour::Dark);
    let leaves = p.leaves.len();
    assert!(leaves > 0);
    p.play_all_leaves(Colour::Dark);
    // The root saw every rollout.
    assert_eq!(p.cache[0].plays as usize, leaves);
    // Every internal node's plays is the sum over its direct children.
    for i in 0..p.cache.len() {
        let children: Vec<usize> = (0..p.cache.len())
            .filter(|&c| p.cache[c].parent == Some(i))
            .collect();
        if !children.is_empty() {
            let sum: u32 = children.iter().map(|&c| p.cache[c].plays).sum();
            assert_eq!(p.cache[i].plays, sum);
        }
        assert!(p.cache[i].wins <= p.cache[i].plays);
    }
}

#[test]
fn single_rollout_updates_the_chain() {
    let b = Board::default();
    let mut p = MonteCarloPlayer::new();
    p.build_tree(&b, 0, Colour::Dark);
    let leaf = p.leaves[0];
    p.play_node(leaf, Colour::Dark);
    assert_eq!(p.cache[leaf].plays, 1);
    assert_eq!(p.cache[0].plays, 1);
    assert_eq!(p.cache[p.leaves[1]].plays, 0);
}

#[test]
fn light_perspective_win_is_scored_as_a_win() {
    // A board holding only Light stones is terminal: Light has nothing to
    // flank and Dark has no stone to move. Light is ahead 3 to 0, so a rollout
    // scored from Light's point of view must record a win.
    let mut b = Board::new();
    b.set(Position::new(0, 0), Some(Colour::Light));
    b.set(Position::new(0, 1), Some(Colour::Light));
    b.set(Position::new(0, 2), Some(Colour::Light));
    assert_eq!(b.get_moves(Colour::Light).len(), 0);
    assert_eq!(b.get_moves(Colour::Dark).len(), 0);
    let mut p = MonteCarloPlayer::new();
    p.build_tree(&b, 0, Colour::Light);
    p.play_node(0, Colour::Light);
    assert_eq!(p.cache[0].plays, 1);
    assert_eq!(p.cache[0].wins, 1);
    // From Dark's point of view the same board is a loss.
    let mut q = MonteCarloPlayer::new();
    q.build_tree(&b, 0, Colour::Dark);
    q.play_node(0, Colour::Dark);
    assert_eq!(q.cache[0].wins, 0);
}

#[test]
fn tie_counts_as_a_loss_for_both() {
    let mut b = Board::new();
    b.set(Position::new(0, 0), Some(Colour::Dark));
    b.set(Position::new(7, 7), Some(Colour::Light));
    assert_eq!(b.get_moves(Colour::Light).len(), 0);
    assert_eq!(b.get_moves(Colour::Dark).len(), 0);
    for team in [Colour::Dark, Colour::Light] {
        let mut p = MonteCarloPlayer::new();
        p.build_tree(&b, 0, team);
        p.play_node(0, team);
        assert_eq!(p.cache[0].plays, 1);
        assert_eq!(p.cache[0].wins, 0);
    }
}
