use grid_planner::Config;
use grid_planner::greedy::greedy_action;
use grid_planner::planner::{LoopState, TimeKeeper, deadline_reached, make_boards, plan, plan_step,
    render_plan, solve};
use grid_planner::sampler::choice_boards;
use grid_planner::world::{Board, Cell};

fn cell_of(c: char) -> Cell {
    match c {
        '#' => Cell::Wall,
        'x' => Cell::Trap,
        '@' => Cell::Start,
        _ => Cell::Open,
    }
}

fn grid(rows: &[&str]) -> Vec<Vec<Cell>> {
    rows.iter().map(|r| r.chars().map(cell_of).collect()).collect()
}

fn boards_equal(a: &Board, b: &Board) -> bool {
    a.turn == b.turn && a.id == b.id && a.row == b.row && a.col == b.col && a.seen == b.seen
        && a.game_score == b.game_score && a.evaluated_score == b.evaluated_score
        && a.terminated == b.terminated
}

#[test]
fn sampler_is_deterministic_for_a_seed() {
    let cfg = Config { n: 100, k: 8, h: 5, w: 5, t: 10 };
    let a = choice_boards(20210325, &cfg);
    let b = choice_boards(20210325, &cfg);
    assert_eq!(a, b, "a fixed seed must always yield the same committee in the same order");
    assert_eq!(a.len(), cfg.k);
    for &i in &a {
        assert!(i < cfg.n);
    }
    let mut sorted = a.clone();
    sorted.sort();
    sorted.dedup();
    assert_eq!(sorted.len(), cfg.k, "committee indices must be distinct");
}

#[test]
fn sampler_takes_whole_pool_when_k_equals_n() {
    let cfg = Config { n: 5, k: 5, h: 3, w: 3, t: 10 };
    let mut c = choice_boards(7, &cfg);
    c.sort();
    assert_eq!(c, vec![0, 1, 2, 3, 4]);
}

#[test]
fn greedy_leaves_the_real_states_untouched() {
    let g0 = grid(&["#####", "#.@.#", "#####"]);
    let g1 = grid(&["#####", "#x@.#", "#####"]);
    let cfg = Config { n: 2, k: 2, h: 3, w: 5, t: 10 };
    let maps = vec![g0, g1];
    let boards = make_boards(&cfg, &maps, &vec![0, 1]).unwrap();
    let snapshot: Vec<Board> = boards.iter().map(|b| b.duplicate()).collect();
    let r = greedy_action(&cfg, &maps, &boards);
    assert!(r.is_some());
    for (b, s) in boards.iter().zip(snapshot.iter()) {
        assert!(boards_equal(b, s), "the selector must not mutate the real committee states");
    }
}

#[test]
fn greedy_picks_the_highest_scoring_direction() {
    let g = grid(&["###", "#@#", "#.#"]);
    let cfg = Config { n: 1, k: 1, h: 3, w: 3, t: 10 };
    let maps = vec![g];
    let boards = make_boards(&cfg, &maps, &vec![0]).unwrap();
    let r = greedy_action(&cfg, &maps, &boards);
    assert_eq!(r, Some(3), "only moving down scores");
}

#[test]
fn greedy_breaks_ties_by_the_fixed_order() {
    let g = grid(&["#####", "#.@.#", "#####"]);
    let cfg = Config { n: 1, k: 1, h: 3, w: 5, t: 10 };
    let maps = vec![g];
    let boards = make_boards(&cfg, &maps, &vec![0]).unwrap();
    let r = greedy_action(&cfg, &maps, &boards);
    assert_eq!(r, Some(0), "left and right tie, so the first of the order wins");
}

#[test]
fn greedy_avoids_the_trap_when_another_move_scores() {
    let g = grid(&["###", "x@.", "###"]);
    let cfg = Config { n: 1, k: 1, h: 3, w: 3, t: 10 };
    let maps = vec![g];
    let boards = make_boards(&cfg, &maps, &vec![0]).unwrap();
    let r = greedy_action(&cfg, &maps, &boards);
    assert_eq!(r, Some(1), "stepping right scores one; stepping left into the trap scores nothing");
}

#[test]
fn greedy_forced_into_trap_when_nothing_scores() {
    let g = grid(&["#x#", "x@x", "#x#"]);
    let cfg = Config { n: 1, k: 1, h: 3, w: 3, t: 10 };
    let maps = vec![g];
    let boards = make_boards(&cfg, &maps, &vec![0]).unwrap();
    let r = greedy_action(&cfg, &maps, &boards);
    assert_eq!(r, Some(0), "every direction sums to zero, so the first of the order is taken");
}

#[test]
fn greedy_returns_none_once_the_committee_is_done() {
    let g = grid(&["###", "#@x", "###"]);
    let cfg = Config { n: 1, k: 1, h: 3, w: 3, t: 10 };
    let maps = vec![g];
    let mut boards = make_boards(&cfg, &maps, &vec![0]).unwrap();
    boards[0].advance(&cfg, &maps, 1);
    assert!(boards[0].is_done(&cfg));
    let r = greedy_action(&cfg, &maps, &boards);
    assert_eq!(r, None);
}

#[test]
fn plan_never_exceeds_the_turn_budget() {
    let g = grid(&["...", ".@.", "..."]);
    let cfg = Config { n: 1, k: 1, h: 3, w: 3, t: 10 };
    let maps = vec![g];
    let mut boards = make_boards(&cfg, &maps, &vec![0]).unwrap();
    let keeper = TimeKeeper::new(10_000);
    let out = plan(&cfg, &maps, &mut boards, &keeper);
    assert!(out.len() <= cfg.t);
    for &a in &out {
        assert!(a < 4);
    }
}

#[test]
fn plan_stops_at_a_deadline_that_already_fired() {
    let g = grid(&["...", ".@.", "..."]);
    let cfg = Config { n: 1, k: 1, h: 3, w: 3, t: 10 };
    let maps = vec![g];
    let mut boards = make_boards(&cfg, &maps, &vec![0]).unwrap();
    let keeper = TimeKeeper::new(0);
    let out = plan(&cfg, &maps, &mut boards, &keeper);
    assert!(out.is_empty(), "a zero time budget must stop the loop before any move");
    assert_eq!(boards[0].turn, 0);
}

#[test]
fn plan_on_an_open_grid_scores_every_visited_cell() {
    let g = grid(&["...", ".@.", "..."]);
    let cfg = Config { n: 1, k: 1, h: 3, w: 3, t: 10 };
    let maps = vec![g];
    let mut boards = make_boards(&cfg, &maps, &vec![0]).unwrap();
    let keeper = TimeKeeper::new(10_000);
    let out = plan(&cfg, &maps, &mut boards, &keeper);
    assert!(out.len() <= cfg.t);
    assert_eq!(
        out.len(),
        cfg.t,
        "a world that never terminates keeps the loop running for the whole budget"
    );
    let visited: usize =
        boards[0].seen.iter().map(|r| r.iter().filter(|&&s| s).count()).sum();
    assert_eq!(
        boards[0].game_score as usize,
        visited - 1,
        "the final score equals the number of distinct cells visited beyond the start"
    );
    assert!(boards[0].game_score >= 1, "the greedy choice takes a scoring move when one exists");
}

#[test]
fn plan_stops_early_once_every_world_is_trapped() {
    let g = grid(&["#x#", "x@x", "#x#"]);
    let cfg = Config { n: 1, k: 1, h: 3, w: 3, t: 10 };
    let maps = vec![g];
    let mut boards = make_boards(&cfg, &maps, &vec![0]).unwrap();
    let keeper = TimeKeeper::new(10_000);
    let out = plan(&cfg, &maps, &mut boards, &keeper);
    assert_eq!(out.len(), 1, "the first move traps the only world and no further move is taken");
    assert!(boards[0].terminated);
}

#[test]
fn plan_step_commits_nothing_once_the_deadline_fired() {
    let g = grid(&["...", ".@.", "..."]);
    let cfg = Config { n: 1, k: 1, h: 3, w: 3, t: 10 };
    let maps = vec![g];
    let mut boards = make_boards(&cfg, &maps, &vec![0]).unwrap();
    let snapshot = boards[0].duplicate();
    let mut out: Vec<usize> = Vec::new();
    let r = plan_step(&cfg, &maps, &mut boards, &mut out, true);
    assert_eq!(r, LoopState::DeadlineStopped);
    assert!(out.is_empty());
    assert!(boards_equal(&boards[0], &snapshot));
}

#[test]
fn plan_step_commits_one_move_while_running() {
    let g = grid(&["...", ".@.", "..."]);
    let cfg = Config { n: 1, k: 1, h: 3, w: 3, t: 10 };
    let maps = vec![g];
    let mut boards = make_boards(&cfg, &maps, &vec![0]).unwrap();
    let mut out: Vec<usize> = Vec::new();
    let r = plan_step(&cfg, &maps, &mut boards, &mut out, false);
    assert_eq!(r, LoopState::Running);
    assert_eq!(out, vec![0], "all four moves score one, so the first of the order is taken");
    assert_eq!(boards[0].turn, 1);
    assert_eq!(boards[0].game_score, 1);
}

#[test]
fn plan_step_reports_the_spent_budget() {
    let g = grid(&["...", ".@.", "..."]);
    let cfg = Config { n: 1, k: 1, h: 3, w: 3, t: 2 };
    let maps = vec![g];
    let mut boards = make_boards(&cfg, &maps, &vec![0]).unwrap();
    let mut out: Vec<usize> = Vec::new();
    assert_eq!(plan_step(&cfg, &maps, &mut boards, &mut out, false), LoopState::Running);
    assert_eq!(plan_step(&cfg, &maps, &mut boards, &mut out, false), LoopState::Running);
    assert_eq!(plan_step(&cfg, &maps, &mut boards, &mut out, false), LoopState::BudgetExhausted);
    assert_eq!(out.len(), 2);
}

#[test]
fn render_plan_writes_the_four_symbols() {
    let out = render_plan(&vec![0, 1, 2, 3, 0]);
    let s: String = out.iter().collect();
    assert_eq!(s, "LRUDL");
}

#[test]
fn timekeeper_zero_budget_is_over_at_once() {
    let keeper = TimeKeeper::new(0);
    assert!(keeper.is_timeover());
}

#[test]
fn deadline_reached_compares_against_the_threshold() {
    assert!(!deadline_reached(0, 1));
    assert!(!deadline_reached(3_899, 3_900));
    assert!(deadline_reached(3_900, 3_900));
    assert!(deadline_reached(3_901, 3_900));
    assert!(deadline_reached(0, 0));
    assert!(deadline_reached(u128::MAX, u64::MAX));
}

#[test]
fn solve_runs_end_to_end_deterministically() {
    let g = grid(&["#####", "#...#", "#.@.#", "#...#", "#####"]);
    let cfg = Config { n: 3, k: 2, h: 5, w: 5, t: 8 };
    let maps = vec![g.clone(), g.clone(), g];
    let keeper = TimeKeeper::new(10_000);
    let first = solve(&cfg, &maps, 42, &keeper).unwrap();
    let keeper2 = TimeKeeper::new(10_000);
    let second = solve(&cfg, &maps, 42, &keeper2).unwrap();
    assert_eq!(first.choice, second.choice);
    assert_eq!(first.choice.len(), cfg.k);
    assert!(first.moves.len() <= cfg.t);
    assert_eq!(first.moves, second.moves, "a fixed seed and an ample deadline reproduce the plan");
}

#[test]
fn solve_reports_a_malformed_chosen_map() {
    let good = grid(&["#####", "#.@.#", "#####"]);
    let bad = grid(&["#####", "#...#", "#####"]);
    let cfg = Config { n: 2, k: 2, h: 3, w: 5, t: 8 };
    let maps = vec![good, bad];
    let keeper = TimeKeeper::new(10_000);
    let r = solve(&cfg, &maps, 1, &keeper);
    assert!(r.is_err(), "a committee containing a map without a start cell cannot be planned");
}
