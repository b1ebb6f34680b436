//! Search engine tests: policy shape, root noise, cache lifetime, and the
//! degenerate no-simulation case.

use othello::board::{Board, Position, Stone};
use othello::evaluator::{
    Evaluation, Evaluator, EvaluatorError, NoiseSource, UniformEvaluator, UniformNoise, SCALE,
};
use othello::mcts::{SearchError, MCTS};
use othello::players::{AlphaZeroPlayer, GreedyPlayer, Player};

const D3: usize = 2 * 8 + 3;
const C4: usize = 3 * 8 + 2;
const F5: usize = 4 * 8 + 5;
const E6: usize = 5 * 8 + 4;

/// An evaluator that hands out a fixed policy and counts its calls.
struct CountingEvaluator {
    policy: Vec<i64>,
    value: i64,
    calls: usize,
}

impl CountingEvaluator {
    fn uniform() -> CountingEvaluator {
        CountingEvaluator {
            policy: vec![SCALE / 64; 64],
            value: 0,
            calls: 0,
        }
    }
}

impl Evaluator for CountingEvaluator {
    fn evaluate(&mut self, _board: &Board) -> Result<Evaluation, EvaluatorError> {
        self.calls += 1;
        Ok(Evaluation {
            policy: self.policy.clone(),
            value: self.value,
        })
    }
}

/// An evaluator that always fails.
struct BrokenEvaluator;

impl Evaluator for BrokenEvaluator {
    fn evaluate(&mut self, _board: &Board) -> Result<Evaluation, EvaluatorError> {
        Err(EvaluatorError {
            message: "model unavailable".to_string(),
        })
    }
}

/// The returned policy sums to one within 1e-4 and is zero off the legal set.
#[test]
fn search_policy_is_a_masked_distribution() {
    let board = Board::new();
    let mut mcts = MCTS::new(UniformEvaluator, UniformNoise, SCALE, 120);
    let pol = mcts.search(&board).unwrap();
    assert_eq!(pol.len(), 64);
    let legal = board.get_legal_moves().0;
    let mut sum = 0f64;
    for i in 0..64 {
        assert!(pol[i] >= 0);
        if legal & (othello::bits::UPPER_LEFT >> i) == 0 {
            assert_eq!(pol[i], 0);
        }
        sum += pol[i] as f64 / SCALE as f64;
    }
    assert!((sum - 1.0).abs() < 1e-4);
}

/// With no exploration noise the root prior is exactly the evaluator's
/// policy, masked to the legal set and renormalized.
#[test]
fn zero_noise_keeps_the_raw_prior() {
    let mut policy = vec![0i64; 64];
    policy[D3] = 100_000;
    policy[C4] = 300_000;
    policy[F5] = 200_000;
    policy[E6] = 400_000;
    let eval = CountingEvaluator {
        policy: policy.clone(),
        value: 0,
        calls: 0,
    };
    let board = Board::new();
    let mut mcts = MCTS::new(eval, UniformNoise, SCALE, 0);
    mcts.set_eps(0);
    mcts.search(&board).unwrap();
    let prior = mcts.root_prior(&board).unwrap();
    // The masked policy already sums to SCALE, so renormalizing keeps it.
    assert_eq!(prior, policy);
}

/// With full noise the root prior is exactly the noise sample.
#[test]
fn full_noise_replaces_the_prior() {
    let board = Board::new();
    let mut mcts = MCTS::new(CountingEvaluator::uniform(), UniformNoise, SCALE, 0);
    mcts.set_eps(SCALE);
    mcts.search(&board).unwrap();
    let prior = mcts.root_prior(&board).unwrap();
    for i in 0..64 {
        if i == D3 || i == C4 || i == F5 || i == E6 {
            assert_eq!(prior[i], SCALE / 4);
        } else {
            assert_eq!(prior[i], 0);
        }
    }
}

/// The statistics cache is reused within an episode and rebuilt after
/// `clear_cache`: the evaluator runs again for a state it already saw.
#[test]
fn clear_cache_forces_a_fresh_evaluation() {
    let board = Board::new();
    let mut mcts = MCTS::new(CountingEvaluator::uniform(), UniformNoise, SCALE, 0);
    mcts.search(&board).unwrap();
    assert_eq!(mcts.evaluator().calls, 1);
    // The root is cached: the second call only expands one child.
    mcts.search(&board).unwrap();
    assert_eq!(mcts.evaluator().calls, 2);
    mcts.clear_cache();
    // The root itself is evaluated again.
    mcts.search(&board).unwrap();
    assert_eq!(mcts.evaluator().calls, 3);
}

/// With zero simulations no visits are recorded: the readout falls back
/// to the exact uniform distribution over the legal set.
#[test]
fn zero_simulations_return_the_uniform_fallback() {
    let board = Board::new();
    let mut mcts = MCTS::new(UniformEvaluator, UniformNoise, SCALE, 0);
    let pol = mcts.search(&board).unwrap();
    let mut sum = 0i64;
    for i in 0..64 {
        if i == D3 || i == C4 || i == F5 || i == E6 {
            assert_eq!(pol[i], SCALE / 4);
        } else {
            assert_eq!(pol[i], 0);
        }
        sum += pol[i];
    }
    assert_eq!(sum, SCALE);
}

#[test]
fn search_rejects_terminal_and_pass_states() {
    let full = Board {
        turn: Stone::Black,
        black: !0u64,
        white: 0,
    };
    let mut mcts = MCTS::new(UniformEvaluator, UniformNoise, SCALE, 10);
    assert!(matches!(
        mcts.search(&full),
        Err(SearchError::GameAlreadyFinished)
    ));
    // Black to move cannot answer, white could: a pass state.
    let pass = Board {
        turn: Stone::Black,
        black: othello::bits::UPPER_LEFT >> 1,
        white: othello::bits::UPPER_LEFT,
    };
    assert!(matches!(mcts.search(&pass), Err(SearchError::NoLegalMove)));
}

#[test]
fn evaluator_failure_aborts_the_search() {
    let board = Board::new();
    let mut mcts = MCTS::new(BrokenEvaluator, UniformNoise, SCALE, 10);
    match mcts.search(&board) {
        Err(SearchError::Evaluator(e)) => {
            assert_eq!(e.message(), "model unavailable");
        }
        other => panic!("expected an evaluator error, got {:?}", other.is_ok()),
    }
}

/// A full self-play game with the search-guided player ends with a legal
/// move at every turn.
#[test]
fn alphazero_player_plays_a_full_game() {
    let mut player = AlphaZeroPlayer::new(UniformEvaluator, UniformNoise, 20);
    let mut board = Board::new();
    let mut plies = 0usize;
    while !board.finished() {
        if board.get_legal_moves().0 == 0 {
            panic!("the board should have passed this turn itself");
        }
        let pos = player.find_move(&board).unwrap();
        assert!(board.get_legal_moves().0 & pos.0 != 0);
        board.put(pos).unwrap();
        plies += 1;
        assert!(plies <= 60);
        player.mcts.clear_cache();
    }
    let count = board.count_stone();
    assert!(count.black + count.white <= 64);
}

/// The greedy player's deterministic branch takes the highest immediate
/// count, ties to the lowest cell.
#[test]
fn greedy_player_on_the_opening_takes_the_first_tie() {
    let board = Board::new();
    let best = othello::players::greedy::best_greedy_move(&board).unwrap();
    assert_eq!(best.to_idx(), D3);
    let mut always_greedy = GreedyPlayer::new(SCALE);
    let pos = always_greedy.find_move(&board).unwrap();
    assert_eq!(pos.to_idx(), D3);
}

/// The prior-free baseline explores with full playouts and still returns
/// a masked distribution.
#[test]
fn prior_free_search_policy_is_masked() {
    let board = Board::new();
    let mut player = othello::players::MCTSPlayer::new(1_414_213, 60);
    let pol = player.search(&board).unwrap();
    let legal = board.get_legal_moves().0;
    let mut sum = 0i64;
    for i in 0..64 {
        assert!(pol[i] >= 0);
        if legal & (othello::bits::UPPER_LEFT >> i) == 0 {
            assert_eq!(pol[i], 0);
        }
        sum += pol[i];
    }
    assert!(SCALE - 64 <= sum && sum <= SCALE);
    player.clear_cache();
    player.init_search(5, board).unwrap();
    let pos = player.find_move(&board).unwrap();
    assert!(board.get_legal_moves().0 & pos.0 != 0);
}

/// The prior-free search rejects terminal and pass states like the PUCT
/// engine.
#[test]
fn prior_free_search_rejects_bad_states() {
    let full = Board {
        turn: Stone::Black,
        black: !0u64,
        white: 0,
    };
    let mut player = othello::players::MCTSPlayer::new(1_414_213, 5);
    assert!(matches!(
        player.search(&full),
        Err(SearchError::GameAlreadyFinished)
    ));
    assert!(matches!(
        player.init_search(3, full),
        Err(SearchError::GameAlreadyFinished)
    ));
}

/// Halfway noise: each root prior entry is the exact renormalized mix of
/// the stored prior and the noise sample.
#[test]
fn half_noise_mixes_and_renormalizes() {
    let mut policy = vec![0i64; 64];
    policy[D3] = 100_000;
    policy[C4] = 300_000;
    policy[F5] = 200_000;
    policy[E6] = 400_000;
    let eval = CountingEvaluator {
        policy: policy.clone(),
        value: 0,
        calls: 0,
    };
    let board = Board::new();
    let mut mcts = MCTS::new(eval, UniformNoise, SCALE, 0);
    mcts.set_eps(SCALE / 2);
    mcts.search(&board).unwrap();
    let prior = mcts.root_prior(&board).unwrap();
    // Both the prior and the uniform noise sum to SCALE, so renormalizing
    // divides the mix by SCALE again.
    for i in 0..64 {
        let expected = (policy[i] + SCALE / 4) / 2;
        if i == D3 || i == C4 || i == F5 || i == E6 {
            assert_eq!(prior[i], expected);
        } else {
            assert_eq!(prior[i], 0);
        }
    }
}
