use othello::action::Action;
use othello::agents::alphabeta::AlphaBetaAgent;
use othello::agents::mcts::{evaluate, expand, select_most_visited, Node, MCTS};
use othello::agents::minimax::MiniMaxAgent;
use othello::agents::random::RandomAgent;
use othello::agents::Agent;
use othello::board::Board;
use othello::evals::cell_score::CellEval;
use othello::evals::EvalTrait;
use othello::constants::TOP_BIT;
use othello::state::State;

fn coord(col: char, row: char) -> u64 {
    let c = col as usize - 'a' as usize;
    let r = row as usize - '1' as usize;
    TOP_BIT >> (r * 8 + c)
}

fn is_legal_on(board: &Board, action: &Action) -> bool {
    board
        .legal_actions()
        .iter()
        .any(|a| a.bitboard == action.bitboard)
}

#[test]
fn minimax_and_alpha_beta_agree_without_time_pressure() {
    // Pruning is lossless: with the same evaluator and a full budget, both
    // searchers must settle on the same action, over several positions and
    // depths.
    for depth in 0..4 {
        let mut board = Board::init();
        for _ in 0..6 {
            let minimax = MiniMaxAgent {
                depth,
                rest_time: 0,
            };
            let alphabeta = AlphaBetaAgent {
                depth,
                rest_time: 0,
            };
            let a = minimax.next_action_option(&board).expect("a legal move exists");
            let b = alphabeta.next_action_option(&board).expect("a legal move exists");
            assert_eq!(a.bitboard, b.bitboard);
            board = board.play_onestep(a);
        }
    }
}

#[test]
fn searchers_still_answer_under_a_tiny_time_budget() {
    // A reserved budget beyond the whole ceiling makes every clock poll fire
    // at once; the depth searches must still hand back a legal action.
    let board = Board::init();
    let minimax = MiniMaxAgent {
        depth: 5,
        rest_time: u128::MAX,
    };
    let alphabeta = AlphaBetaAgent {
        depth: 5,
        rest_time: u128::MAX,
    };
    let a = minimax.next_action_option(&board).expect("graceful degradation");
    let b = alphabeta.next_action_option(&board).expect("graceful degradation");
    assert!(is_legal_on(&board, &a));
    assert!(is_legal_on(&board, &b));
    // The tree searcher may legitimately find nothing before the deadline;
    // whatever it finds must be legal.
    let mcts = MCTS {
        expand_threshold: 5,
        rest_time: u128::MAX,
    };
    if let Some(c) = mcts.next_action_option(&board) {
        assert!(is_legal_on(&board, &c));
    }
}

#[test]
fn mcts_with_budget_returns_a_legal_action() {
    let board = Board::init();
    let mcts = MCTS {
        expand_threshold: 13,
        rest_time: 140_000,
    };
    let action = mcts
        .next_action_option(&board)
        .expect("ten milliseconds buy at least one simulation");
    assert!(is_legal_on(&board, &action));
}

#[test]
fn simulations_distribute_exactly_over_root_children() {
    // The sum of the root children's visit counts equals the number of
    // simulations executed.
    let board = Board::init();
    let mut nodes: Vec<Node> = Vec::new();
    nodes.push(Node {
        board,
        parent: 0,
        child_start: 0,
        child_count: 0,
        try_count: 0,
        sum_w_half: 0,
    });
    expand(&mut nodes, 0);
    assert_eq!(nodes[0].child_count, 4);
    let sims = 25u32;
    for _ in 0..sims {
        evaluate(&mut nodes, 0, 10);
    }
    assert_eq!(nodes[0].try_count, sims);
    let start = nodes[0].child_start;
    let total: u32 = (0..nodes[0].child_count)
        .map(|i| nodes[start + i].try_count)
        .sum();
    assert_eq!(total, sims);
    // Every walk absorbed the flipped child reward, so the parent's reward
    // sum counts one half-point per simulation on these shallow positions.
    assert_eq!(nodes[0].sum_w_half, sims as u64);
}

#[test]
fn terminal_rewards_land_in_the_reward_sum() {
    // A lone mover disk is a finished win for the mover: each simulation of
    // that node pays a full point (two half-points) into its reward sum.
    let mut won = Board::init();
    won.set_state(State::build(TOP_BIT, 0));
    let mut nodes = vec![Node {
        board: won,
        parent: 0,
        child_start: 0,
        child_count: 0,
        try_count: 0,
        sum_w_half: 0,
    }];
    assert_eq!(evaluate(&mut nodes, 0, 5), 2);
    assert_eq!(nodes[0].sum_w_half, 2);
    assert_eq!(nodes[0].try_count, 1);
    // The mirrored board is a loss: the reward is zero.
    let mut lost = Board::init();
    lost.set_state(State::build(0, TOP_BIT));
    nodes[0] = Node {
        board: lost,
        parent: 0,
        child_start: 0,
        child_count: 0,
        try_count: 0,
        sum_w_half: 0,
    };
    assert_eq!(evaluate(&mut nodes, 0, 5), 0);
    assert_eq!(nodes[0].sum_w_half, 0);
    // One disk each is a finished draw: half a point.
    let mut drawn = Board::init();
    drawn.set_state(State::build(TOP_BIT, 1));
    nodes[0] = Node {
        board: drawn,
        parent: 0,
        child_start: 0,
        child_count: 0,
        try_count: 0,
        sum_w_half: 0,
    };
    assert_eq!(evaluate(&mut nodes, 0, 5), 1);
    assert_eq!(nodes[0].sum_w_half, 1);
}

#[test]
fn leaf_samples_half_a_point_and_expands_exactly_at_the_threshold() {
    let mut nodes = vec![Node {
        board: Board::init(),
        parent: 0,
        child_start: 0,
        child_count: 0,
        try_count: 0,
        sum_w_half: 0,
    }];
    // Two leaf samples below the threshold: half a point each, no children.
    assert_eq!(evaluate(&mut nodes, 0, 3), 1);
    assert_eq!(evaluate(&mut nodes, 0, 3), 1);
    assert_eq!(nodes[0].child_count, 0);
    assert_eq!(nodes[0].sum_w_half, 2);
    // The third visit reaches the threshold: the four openings materialize,
    // each child holding the one-step board of its action, in order.
    assert_eq!(evaluate(&mut nodes, 0, 3), 1);
    assert_eq!(nodes[0].try_count, 3);
    assert_eq!(nodes[0].child_count, 4);
    let start = nodes[0].child_start;
    let actions = Board::init().legal_actions();
    for (i, action) in actions.iter().enumerate() {
        let child = nodes[start + i];
        let expected = Board::init().play_onestep(*action);
        assert_eq!(child.board.state.player_bit, expected.state.player_bit);
        assert_eq!(child.board.state.opponent_bit, expected.state.opponent_bit);
        assert_eq!(child.try_count, 0);
        assert_eq!(child.sum_w_half, 0);
    }
}

#[test]
fn dominant_child_is_always_selected() {
    let board = Board::init();
    let actions = board.legal_actions();
    let mut nodes: Vec<Node> = Vec::new();
    nodes.push(Node {
        board,
        parent: 0,
        child_start: 0,
        child_count: 0,
        try_count: 0,
        sum_w_half: 0,
    });
    expand(&mut nodes, 0);
    let start = nodes[0].child_start;
    let counts = [3u32, 17, 9, 2];
    for (i, c) in counts.iter().enumerate() {
        nodes[start + i].try_count = *c;
    }
    let chosen = select_most_visited(&nodes, start, &actions).expect("a visited child exists");
    assert_eq!(chosen.bitboard, actions[1].bitboard);
    // All counts zero: a valid "no action" outcome.
    for i in 0..4 {
        nodes[start + i].try_count = 0;
    }
    assert!(select_most_visited(&nodes, start, &actions).is_none());
    // A tie keeps the earliest-generated action.
    nodes[start].try_count = 6;
    nodes[start + 2].try_count = 6;
    let tied = select_most_visited(&nodes, start, &actions).expect("visited children exist");
    assert_eq!(tied.bitboard, actions[0].bitboard);
}

#[test]
fn random_agent_plays_some_legal_action() {
    let board = Board::init();
    let agent = RandomAgent {};
    for _ in 0..10 {
        let action = agent.next_action_option(&board).expect("four moves are open");
        assert!(is_legal_on(&board, &action));
    }
}

#[test]
fn agent_capability_surface_hands_back_legal_actions() {
    let agent = MiniMaxAgent {
        depth: 2,
        rest_time: 0,
    };
    let board = Board::init();
    let action = agent.next_action(&board);
    assert!(is_legal_on(&board, &action));
    let from_state = agent.get_action_from(State::init());
    assert!(is_legal_on(&Board::init(), &from_state));
}

#[test]
fn evaluator_scores_corner_against_neighbour() {
    let mut board = Board::init();
    // A corner weighs 30; the cell beside it along the edge weighs -12.
    board.set_state(State::build(coord('a', '1'), coord('b', '1')));
    assert_eq!(CellEval::eval(board), 42);
    // The initial position is symmetric and scores zero.
    assert_eq!(CellEval::eval(Board::init()), 0);
}
