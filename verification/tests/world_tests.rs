use grid_planner::Config;
use grid_planner::world::{Board, Cell, MalformedMapError};

fn cell_of(c: char) -> Cell {
    match c {
        '#' => Cell::Wall,
        'x' => Cell::Trap,
        '@' => Cell::Start,
        _ => Cell::Open,
    }
}

fn grid(rows: &[&str]) -> Vec<Vec<Cell>> {
    rows.iter().map(|r| r.chars().map(cell_of).collect()).collect()
}

fn single_pool(rows: &[&str]) -> (Config, Vec<Vec<Vec<Cell>>>) {
    let g = grid(rows);
    let cfg = Config { n: 1, k: 1, h: g.len(), w: g[0].len(), t: 10 };
    (cfg, vec![g])
}

fn count_seen(b: &Board) -> usize {
    b.seen.iter().map(|r| r.iter().filter(|&&s| s).count()).sum()
}

#[test]
fn config_check_valid_accepts_and_rejects() {
    let good = Config { n: 100, k: 8, h: 50, w: 50, t: 2500 };
    assert!(good.check_valid());
    let zero_h = Config { n: 100, k: 8, h: 0, w: 50, t: 2500 };
    assert!(!zero_h.check_valid());
    let k_over_n = Config { n: 4, k: 8, h: 50, w: 50, t: 2500 };
    assert!(!k_over_n.check_valid());
    let huge = Config { n: 1, k: 1, h: 1 << 20, w: 1 << 20, t: 1 };
    assert!(!huge.check_valid());
}

#[test]
fn new_fails_without_start() {
    let (cfg, maps) = single_pool(&["###", "#.#", "###"]);
    let r = Board::new(&cfg, &maps, 0);
    assert_eq!(r.err(), Some(MalformedMapError));
}

#[test]
fn new_builds_fresh_state_on_start() {
    let (cfg, maps) = single_pool(&["###", "#@#", "###"]);
    let b = Board::new(&cfg, &maps, 0).unwrap();
    assert_eq!(b.turn, 0);
    assert_eq!(b.game_score, 0);
    assert!(!b.terminated);
    assert_eq!((b.row, b.col), (1, 1));
    assert!(b.seen[1][1]);
    assert_eq!(count_seen(&b), 1);
}

#[test]
fn advance_onto_open_cell_scores_once() {
    let (cfg, maps) = single_pool(&["#####", "#.@.#", "#####"]);
    let mut b = Board::new(&cfg, &maps, 0).unwrap();
    b.advance(&cfg, &maps, 1);
    assert_eq!((b.row, b.col), (1, 3));
    assert_eq!(b.game_score, 1);
    assert_eq!(b.turn, 1);
    b.advance(&cfg, &maps, 0);
    assert_eq!((b.row, b.col), (1, 2));
    assert_eq!(b.game_score, 1, "revisiting the start must not score again");
    assert_eq!(b.turn, 2);
}

#[test]
fn advance_toward_wall_only_spends_the_turn() {
    let (cfg, maps) = single_pool(&["###", "#@#", "###"]);
    let mut b = Board::new(&cfg, &maps, 0).unwrap();
    for action in 0..4 {
        let before_pos = (b.row, b.col);
        let before_score = b.game_score;
        let before_turn = b.turn;
        b.advance(&cfg, &maps, action);
        assert_eq!((b.row, b.col), before_pos);
        assert_eq!(b.game_score, before_score);
        assert_eq!(b.turn, before_turn + 1);
    }
}

#[test]
fn advance_off_grid_counts_as_wall() {
    let (cfg, maps) = single_pool(&["@"]);
    let mut b = Board::new(&cfg, &maps, 0).unwrap();
    for action in 0..4 {
        b.advance(&cfg, &maps, action);
        assert_eq!((b.row, b.col), (0, 0));
        assert_eq!(b.game_score, 0);
    }
    assert_eq!(b.turn, 4);
}

#[test]
fn advance_onto_trap_terminates_the_world() {
    let (cfg, maps) = single_pool(&["###", "#@x", "###"]);
    let mut b = Board::new(&cfg, &maps, 0).unwrap();
    b.advance(&cfg, &maps, 1);
    assert!(b.terminated);
    assert_eq!(b.turn, cfg.t);
    assert!(b.is_done(&cfg));
    assert_eq!(b.game_score, 0, "a trap cell is never scored");
    assert_eq!((b.row, b.col), (1, 2));
}

#[test]
fn terminated_world_ignores_further_moves() {
    let (cfg, maps) = single_pool(&["###", "#@x", "###"]);
    let mut b = Board::new(&cfg, &maps, 0).unwrap();
    b.advance(&cfg, &maps, 1);
    assert!(b.terminated);
    let pos = (b.row, b.col);
    let score = b.game_score;
    let turn = b.turn;
    let seen = b.seen.clone();
    for action in 0..4 {
        b.advance(&cfg, &maps, action);
        assert_eq!((b.row, b.col), pos);
        assert_eq!(b.game_score, score);
        assert_eq!(b.turn, turn);
        assert_eq!(b.seen, seen);
    }
}

#[test]
fn score_always_counts_visited_minus_one() {
    let (cfg, maps) = single_pool(&["#####", "#...#", "#.@.#", "#...#", "#####"]);
    let mut b = Board::new(&cfg, &maps, 0).unwrap();
    for action in [0usize, 2, 1, 1, 3, 3, 0, 0, 2, 1].iter().copied() {
        b.advance(&cfg, &maps, action);
        assert_eq!(b.game_score as usize + 1, count_seen(&b));
    }
}

#[test]
fn is_done_tracks_the_budget() {
    let (cfg, maps) = single_pool(&["###", "#@#", "###"]);
    let mut b = Board::new(&cfg, &maps, 0).unwrap();
    for _ in 0..cfg.t {
        assert!(!b.is_done(&cfg));
        b.advance(&cfg, &maps, 0);
    }
    assert!(b.is_done(&cfg));
}

#[test]
fn evaluate_score_copies_the_reward() {
    let (cfg, maps) = single_pool(&["#####", "#.@.#", "#####"]);
    let mut b = Board::new(&cfg, &maps, 0).unwrap();
    b.advance(&cfg, &maps, 1);
    assert_eq!(b.evaluated_score, 0);
    b.evaluate_score();
    assert_eq!(b.evaluated_score, 1);
}

#[test]
fn duplicate_copies_every_field() {
    let (cfg, maps) = single_pool(&["#####", "#.@.#", "#####"]);
    let mut b = Board::new(&cfg, &maps, 0).unwrap();
    b.advance(&cfg, &maps, 1);
    let d = b.duplicate();
    assert_eq!(d.turn, b.turn);
    assert_eq!(d.id, b.id);
    assert_eq!((d.row, d.col), (b.row, b.col));
    assert_eq!(d.seen, b.seen);
    assert_eq!(d.game_score, b.game_score);
    assert_eq!(d.terminated, b.terminated);
}
