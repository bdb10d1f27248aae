use boardgames::common::Outcome;
use boardgames::dots_and_boxes::{Dir, DotsAndBoxes, Edge, N_EDGES, Player as DPlayer};
use boardgames::odds_game::{Action as OddsAction, OddsGame, Player as OddsPlayer};
use boardgames::pig::{Action as PigAction, Pig, Player as PigPlayer, WIN_SCORE};
use boardgames::tic_tac_toe::{Cell, Optimal, Player as TttPlayer, TicTacToe};
use boardgames::traffic_light::{P, TrafficLight};
use boardgames::value_game::{OddsGame as ValueGame, OddsGameAction, OddsGamePlayer};

// ----- Pig -----

#[test]
fn pig_shows_scores_and_turn_total() {
    let mut g = Pig::new();
    assert_eq!(g.render(), "P1: 0 | P2: 0 | Turn: 0");
    g.scores = [12, 40];
    g.turn_total = 6;
    assert_eq!(g.render(), "P1: 12 | P2: 40 | Turn: 6");
    g.scores = [4294967295, 100];
    g.turn_total = 1000;
    assert_eq!(g.render(), "P1: 4294967295 | P2: 100 | Turn: 1000");
}

#[test]
fn odds_game_shows_both_odds() {
    let mut g = OddsGame::new();
    g.w = 7;
    g.l = 105;
    assert_eq!(g.render(), "7 105");
    g.w = 0;
    g.l = 10;
    assert_eq!(g.render(), "0 10");
}

#[test]
fn bank_accumulates_and_switches_player() {
    let mut g = Pig::new();
    g.apply_action(PigAction::Roll);
    g.apply_action(PigAction::Die(5));
    g.apply_action(PigAction::Bank);
    assert_eq!(g.scores[0], 5);
    assert_eq!(g.to_play, PigPlayer::P2);
}

#[test]
fn pig_on_one_loses_turn_total() {
    let mut g = Pig::new();
    g.apply_action(PigAction::Roll);
    g.apply_action(PigAction::Die(4));
    g.apply_action(PigAction::Roll);
    g.apply_action(PigAction::Die(1));
    assert_eq!(g.turn_total, 0);
    assert_eq!(g.scores[0], 0);
    assert_eq!(g.to_play, PigPlayer::P2);
}

#[test]
fn first_to_100_wins() {
    let mut g = Pig::new();
    g.scores[0] = 94;
    g.apply_action(PigAction::Roll);
    g.apply_action(PigAction::Die(6));
    assert!(!g.is_terminal());
    g.apply_action(PigAction::Bank);
    assert!(g.is_terminal());
    assert!(matches!(g.outcome(PigPlayer::P1), Some(Outcome::Win)));
    assert!(matches!(g.outcome(PigPlayer::P2), Some(Outcome::Loss)));
}

#[test]
fn pig_banking_below_the_target_passes_the_turn() {
    let mut g = Pig::new();
    g.scores[0] = WIN_SCORE - 10;
    g.apply_action(PigAction::Roll);
    g.apply_action(PigAction::Die(6));
    g.apply_action(PigAction::Bank);
    assert_eq!(g.scores[0], WIN_SCORE - 4);
    assert_eq!(g.to_play, PigPlayer::P2);
    assert!(!g.is_terminal());
    assert!(g.outcome(PigPlayer::P1).is_none());
}

#[test]
fn pig_actions_follow_the_turn() {
    let mut g = Pig::new();
    let (actions, weights) = g.get_actions(PigPlayer::P1);
    assert_eq!(actions, vec![PigAction::Roll]);
    assert!(weights.is_none());
    assert!(!g.is_random());
    g.apply_action(PigAction::Roll);
    assert!(g.is_random());
    let (actions, weights) = g.get_actions(PigPlayer::P1);
    assert_eq!(actions, (1..=6).map(PigAction::Die).collect::<Vec<_>>());
    assert_eq!(weights, Some(vec![1u32; 6]));
    g.apply_action(PigAction::Die(3));
    let (actions, _) = g.get_actions(PigPlayer::P1);
    assert_eq!(actions, vec![PigAction::Roll, PigAction::Bank]);
}

#[test]
fn pig_action_numbers_round_trip() {
    for a in [PigAction::Roll, PigAction::Bank, PigAction::Die(1), PigAction::Die(6)] {
        assert_eq!(PigAction::from_index(a.into_index()), a);
    }
}

// ----- Odds game -----

#[test]
fn odds_game_t2() {
    let mut g = OddsGame::new();
    let (a, _) = g.get_actions(g.current_player());
    println!("{:?}", &a);
    g.apply_action(a[0]);
    println!("{} {}", g.w, g.l);
}

#[test]
fn odds_game_roll_weights_are_the_odds() {
    let mut g = OddsGame::new();
    g.apply_action(OddsAction::Choose(30, 20));
    assert!(g.is_random());
    assert_eq!(g.current_player(), OddsPlayer::B);
    let (actions, weights) = g.get_actions(g.current_player());
    assert_eq!(
        actions,
        vec![
            OddsAction::Roll(Some(OddsPlayer::A)),
            OddsAction::Roll(Some(OddsPlayer::B)),
            OddsAction::Roll(None)
        ]
    );
    assert_eq!(weights, Some(vec![30, 20, 50]));
}

#[test]
fn odds_game_choices_stay_within_the_denominator() {
    let g = OddsGame::new();
    let (actions, weights) = g.get_actions(g.current_player());
    assert_eq!(actions.len(), 8);
    assert!(weights.is_none());
    for a in actions {
        match a {
            OddsAction::Choose(w, l) => assert!(w <= 100 && l <= 100),
            _ => panic!("expected a choice of odds"),
        }
    }
}

#[test]
fn odds_game_roll_decides_the_winner() {
    let mut g = OddsGame::new();
    g.apply_action(OddsAction::Choose(10, 10));
    g.apply_action(OddsAction::Roll(None));
    assert!(!g.is_terminal());
    g.apply_action(OddsAction::Roll(Some(OddsPlayer::B)));
    assert!(g.is_terminal());
    assert!(matches!(g.outcome(OddsPlayer::B), Some(Outcome::Win)));
    assert!(matches!(g.pairwise_outcome(OddsPlayer::A, OddsPlayer::B), Some(Outcome::Loss)));
}

#[test]
fn odds_game_action_numbers_round_trip() {
    for a in [
        OddsAction::Choose(7, 93),
        OddsAction::Choose(100, 0),
        OddsAction::Roll(None),
        OddsAction::Roll(Some(OddsPlayer::A)),
        OddsAction::Roll(Some(OddsPlayer::B)),
    ] {
        assert_eq!(OddsAction::from_index(a.into_index()), a);
    }
}

// ----- Value game -----

#[test]
fn value_game_t2() {
    let mut g = ValueGame::new();
    let a = g.get_actions(g.current_player());
    println!("{:?}", &a);
    g.apply_action(a[0]);
    println!("{} {}", g.w, g.l);
}

#[test]
fn value_game_raises_stay_within_ten_and_the_cap() {
    let mut g = ValueGame::new();
    g.w = 95;
    g.l = 3;
    let actions = g.get_actions(g.current_player());
    assert_eq!(actions.len(), 3);
    for OddsGameAction(w, l) in actions {
        assert!((95..=100).contains(&w));
        assert!((3..=13).contains(&l));
    }
}

#[test]
fn value_game_draws_decide_the_winner() {
    let mut g = ValueGame::new();
    g.apply_with_draws(OddsGameAction(40, 50), true, false);
    assert_eq!(g.winner, Some(OddsGamePlayer::B));
    assert_eq!((g.w, g.l), (40, 50));
    assert_eq!(g.to_play, OddsGamePlayer::B);
    assert!(g.is_terminal());
    assert!(matches!(g.outcome(OddsGamePlayer::A), Some(Outcome::Loss)));
}

#[test]
fn value_game_certain_odds_end_the_game() {
    let mut g = ValueGame::new();
    g.w = 100;
    g.l = 0;
    g.apply_action(OddsGameAction(5, 5));
    assert_eq!(g.winner, Some(OddsGamePlayer::A));
}

// ----- Traffic light -----

#[test]
fn game() {
    let mut g = TrafficLight::new();
    while !g.is_terminal() {
        g.apply_action(g.get_actions(P::A)[0]);
    }
}

#[test]
fn traffic_light_outcome_follows_the_points() {
    let mut g = TrafficLight::new();
    g.points1 = 10;
    g.points2 = 4;
    assert!(g.is_terminal());
    assert!(matches!(g.outcome(P::A), Some(Outcome::Win)));
    assert!(matches!(g.outcome(P::B), Some(Outcome::Loss)));
    g.points2 = 10;
    assert!(matches!(g.pairwise_outcome(P::A, P::B), Some(Outcome::Draw)));
}

#[test]
fn traffic_light_scores_for_the_player_to_play() {
    let mut g = TrafficLight::new();
    let before = g.current_player();
    g.apply_action(g.get_actions(before)[0]);
    assert_eq!(g.prev_player(), before);
    assert_eq!(g.points1 + g.points2, 1);
    assert_eq!(if before == P::A { g.points1 } else { g.points2 }, 1);
}

// ----- Tic-tac-toe -----

fn ttt(cells: &[usize]) -> TicTacToe {
    let mut g = TicTacToe::new();
    for &c in cells {
        g.apply_action(Cell(c as u8));
    }
    g
}

#[test]
fn tic_tac_toe_row_wins() {
    let g = ttt(&[0, 3, 1, 4, 2]);
    assert_eq!(g.check_winner(), Some(TttPlayer::X));
    assert!(g.is_terminal());
    assert!(matches!(g.outcome(TttPlayer::X), Some(Outcome::Win)));
    assert!(matches!(g.outcome(TttPlayer::O), Some(Outcome::Loss)));
}

#[test]
fn tic_tac_toe_full_board_draws() {
    let g = ttt(&[0, 1, 2, 4, 3, 5, 7, 6, 8]);
    assert_eq!(g.check_winner(), None);
    assert!(g.is_terminal());
    assert!(matches!(g.outcome(TttPlayer::X), Some(Outcome::Draw)));
}

#[test]
fn tic_tac_toe_actions_are_the_empty_cells() {
    let g = ttt(&[4, 0]);
    let (actions, weights) = g.get_actions(g.current_player());
    assert!(weights.is_none());
    let cells: Vec<u8> = actions.iter().map(|c| c.0).collect();
    assert_eq!(cells, vec![1, 2, 3, 5, 6, 7, 8]);
}

#[test]
fn optimal_takes_a_win() {
    // X at 0 and 1, O at 3 and 4: X wins at 2.
    let g = ttt(&[0, 3, 1, 4]);
    assert_eq!(Optimal.get_action(g).0, 2);
}

#[test]
fn optimal_blocks_a_threat() {
    // X at 0, O at 4, X at 8, O at 1: O threatens 7, X must block.
    let g = ttt(&[0, 4, 8, 1]);
    assert_eq!(Optimal.get_action(g).0, 7);
}

#[test]
fn optimal_never_loses_to_itself() {
    let mut g = TicTacToe::new();
    while !g.is_terminal() {
        let mv = Optimal.get_action(g.clone());
        g.apply_action(mv);
    }
    assert_eq!(g.check_winner(), None);
}

#[test]
fn optimal_threat_and_fork_cells() {
    let mut board = [None; 9];
    board[0] = Some(TttPlayer::X);
    board[1] = Some(TttPlayer::X);
    assert_eq!(Optimal::threat_cells(&board, TttPlayer::X), vec![2]);
    let mut board = [None; 9];
    board[0] = Some(TttPlayer::X);
    board[8] = Some(TttPlayer::X);
    board[4] = Some(TttPlayer::O);
    assert_eq!(Optimal::fork_moves(&board, TttPlayer::X), vec![2, 6]);
}

// ----- Dots and boxes -----

#[test]
fn get_actions() {
    let mut game = DotsAndBoxes::new();
    let (actions, _) = game.get_actions(DPlayer::A);
    assert_eq!(actions.len(), N_EDGES);
    game.apply_action(actions[1]);
    let (actions, _) = game.get_actions(DPlayer::B);
    assert_eq!(actions.len(), N_EDGES - 1);
}

#[test]
fn dots_and_boxes_closing_a_box_scores_and_keeps_the_turn() {
    let mut g = DotsAndBoxes::new();
    let top = g.index(&Edge(0, 0, Dir::N));
    let left = g.index(&Edge(0, 0, Dir::W));
    let bottom = g.index(&Edge(0, 1, Dir::N));
    let right = g.index(&Edge(1, 0, Dir::W));
    g.apply_action(top);
    assert_eq!(g.current_player(), DPlayer::B);
    g.apply_action(left);
    g.apply_action(bottom);
    assert_eq!(g.current_player(), DPlayer::D);
    g.apply_action(right);
    assert_eq!(g.score, [0, 0, 0, 1]);
    assert_eq!(g.current_player(), DPlayer::D);
    assert!(g.contains(&Edge(1, 0, Dir::W)));
}

#[test]
fn dots_and_boxes_edge_numbering_round_trips() {
    for i in 0..N_EDGES {
        let e = Edge::from_index(i);
        assert!(e.in_bounds());
        assert_eq!(e.index(), i);
    }
}

#[test]
fn dots_and_boxes_full_board_picks_winners() {
    let mut g = DotsAndBoxes::new();
    let mut moves = 0;
    while !g.is_terminal() {
        let (actions, _) = g.get_actions(g.current_player());
        g.apply_action(actions[0]);
        moves += 1;
    }
    assert_eq!(moves, N_EDGES);
    assert_eq!(g.score.iter().map(|&s| s as u32).sum::<u32>(), 25);
    let best = *g.score.iter().max().unwrap();
    let winners = g.winners().unwrap();
    for (i, p) in [DPlayer::A, DPlayer::B, DPlayer::C, DPlayer::D].into_iter().enumerate() {
        assert_eq!(winners.contains(&p), g.score[i] == best);
        let won = matches!(g.outcome(p), Some(Outcome::Win) | Some(Outcome::Draw));
        assert_eq!(won, g.score[i] == best);
    }
}

#[test]
fn tic_tac_toe_renders_three_lines() {
    let g = ttt(&[0, 4, 8]);
    assert_eq!(g.render(), "X..\n.O.\n..X\n");
}

#[test]
fn dots_and_boxes_renders_the_grid() {
    let mut g = DotsAndBoxes::new();
    let dots = ".   .   .   .   .   .\n";
    let walls = "                     \n";
    let empty: String = [dots, walls].concat().repeat(5) + dots;
    assert_eq!(g.render(), empty);
    let top = g.index(&Edge(0, 0, Dir::N));
    let side = g.index(&Edge(5, 0, Dir::W));
    g.apply_action(top);
    g.apply_action(side);
    let first = ".---.   .   .   .   .\n";
    let wall = "                    |\n";
    let drawn: String = [first, wall].concat() + &[dots, walls].concat().repeat(4) + dots;
    assert_eq!(g.render(), drawn);
}

#[test]
fn dots_and_boxes_points_count_complete_boxes() {
    let mut g = DotsAndBoxes::new();
    let mut step = 0usize;
    while !g.is_terminal() {
        let (actions, _) = g.get_actions(g.current_player());
        // Play edges in a scrambled but fixed order.
        let pick = actions[(step * 7) % actions.len()];
        g.apply_action(pick);
        step += 1;
        let mut complete = 0u32;
        for y in 0..5u8 {
            for x in 0..5u8 {
                let sides = [Edge(x, y, Dir::N), Edge(x, y, Dir::W), Edge(x, y + 1, Dir::N), Edge(x + 1, y, Dir::W)];
                if sides.iter().all(|e| g.contains(e)) {
                    complete += 1;
                }
            }
        }
        let points: u32 = g.score.iter().map(|&s| s as u32).sum();
        assert_eq!(points, complete);
    }
}
