use boardgames::common::Outcome;
use boardgames::tournament::{Matchup, Step, TestResult, init_matchups, next_step, select_job};

fn sorted(mut v: Vec<usize>) -> Vec<usize> {
    v.sort();
    v
}

#[test]
fn matchup_update_counts_each_outcome() {
    let mut m = Matchup::new(true);
    m.update(Outcome::Win);
    m.update(Outcome::Win);
    m.update(Outcome::Draw);
    m.update(Outcome::Loss);
    assert_eq!((m.wins, m.draws, m.losses), (2, 1, 1));
    assert!(m.test_result.is_none());
    assert!(m.evaluate);
}

#[test]
fn init_matchups_pairs_every_two_agents() {
    let ms = init_matchups(&vec![true, false, true]);
    let pairs: Vec<(usize, usize)> = ms.iter().map(|(p, _)| *p).collect();
    assert_eq!(pairs, vec![(0, 1), (0, 2), (1, 0), (1, 2), (2, 0), (2, 1)]);
    let tested: Vec<bool> = ms.iter().map(|(_, m)| m.evaluate).collect();
    assert_eq!(tested, vec![false, true, false, false, true, false]);
}

#[test]
fn select_job_prefers_open_matchups() {
    let mut ms = init_matchups(&vec![true, true, true, true]);
    // Only (2, 3) is still open.
    for (pair, m) in ms.iter_mut() {
        if *pair != (2, 3) {
            m.test_result = Some(TestResult::H0);
        }
    }
    let job = select_job(&ms, 4, 2);
    assert_eq!(sorted(job.agents), vec![2, 3]);
}

#[test]
fn select_job_fills_up_from_the_roster() {
    let ms = init_matchups(&vec![false, false, false]);
    let job = select_job(&ms, 3, 2);
    assert_eq!(sorted(job.agents), vec![0, 1]);
}

#[test]
fn select_job_skips_pairs_that_do_not_fit() {
    // Open pairs (0, 1), (1, 2) and (3, 4) for four seats: the third pair
    // would make five agents, so it waits, and the roster fills the last seat.
    let ms = vec![
        ((0usize, 1usize), Matchup::new(true)),
        ((1, 2), Matchup::new(true)),
        ((3, 4), Matchup::new(true)),
    ];
    let job = select_job(&ms, 5, 4);
    assert_eq!(sorted(job.agents), vec![0, 1, 2, 3]);
    let job = select_job(&ms, 6, 4);
    assert_eq!(job.agents.len(), 4);
}

#[test]
fn select_job_seats_the_first_open_matchup() {
    let mut ms = init_matchups(&vec![true, true, true, true, true]);
    for (pair, m) in ms.iter_mut() {
        if *pair != (4, 3) && *pair != (0, 1) {
            m.test_result = Some(TestResult::H1);
        }
    }
    // (0, 1) comes first in the list; with two seats only it is played.
    let job = select_job(&ms, 5, 2);
    assert_eq!(sorted(job.agents), vec![0, 1]);
    let job = select_job(&ms, 5, 4);
    assert_eq!(sorted(job.agents), vec![0, 1, 3, 4]);
}

#[test]
fn select_job_ignores_agents_off_the_roster() {
    let ms = vec![((7usize, 1usize), Matchup::new(true)), ((2, 3), Matchup::new(true))];
    let job = select_job(&ms, 4, 2);
    assert_eq!(sorted(job.agents), vec![2, 3]);
    // A roster smaller than the game seats everyone it has.
    let job = select_job(&ms, 1, 2);
    assert_eq!(job.agents, vec![0]);
}

#[test]
fn scheduler_steps() {
    assert_eq!(next_step(3, 3, true, true, 0, 4), Step::Done);
    assert_eq!(next_step(1, 3, true, false, 0, 4), Step::Interrupted);
    assert_eq!(next_step(1, 3, false, true, 0, 4), Step::TimeUp);
    assert_eq!(next_step(1, 3, false, false, 2, 4), Step::Dispatch);
    assert_eq!(next_step(1, 3, false, false, 4, 4), Step::Wait);
}
