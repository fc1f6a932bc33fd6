use vstd::prelude::*;
use vstd::pervasive::VecAdditionalExecFns;
use crate::Config;

verus! {

/// One cell of a map: a wall, an open floor cell, a trap that ends the
/// world's run, or the agent's starting cell (open floor thereafter).
#[derive(Clone, Copy, PartialEq, Eq, Structural, Debug)]
pub enum Cell {
    Wall,
    Open,
    Trap,
    Start,
}

/// Mathematical view of one map: a sequence of rows of cells.
pub open spec fn grid_of(g: Vec<Vec<Cell>>) -> Seq<Seq<Cell>> {
    g@.map_values(|r: Vec<Cell>| r@)
}

/// Mathematical view of the whole map pool.
pub open spec fn pool_of(maps: &Vec<Vec<Vec<Cell>>>) -> Seq<Seq<Seq<Cell>>> {
    maps@.map_values(|g: Vec<Vec<Cell>>| grid_of(g))
}

/// A map has exactly the configured dimensions.
pub open spec fn grid_wf(g: Seq<Seq<Cell>>, cfg: Config) -> bool {
    &&& g.len() == cfg.h
    &&& forall|i: int| 0 <= i < g.len() ==> (#[trigger] g[i]).len() == cfg.w
}

/// The pool holds the configured number of maps, all well-formed.
pub open spec fn pool_wf(maps: Seq<Seq<Seq<Cell>>>, cfg: Config) -> bool {
    &&& maps.len() == cfg.n
    &&& forall|i: int| 0 <= i < maps.len() ==> grid_wf(#[trigger] maps[i], cfg)
}

/// Number of `true` entries in one row of the visited grid.
pub open spec fn row_count(r: Seq<bool>) -> int
    decreases r.len(),
{
    if r.len() == 0 {
        0
    } else {
        row_count(r.drop_last()) + if r.last() {
            1int
        } else {
            0int
        }
    }
}

/// Number of `true` entries in the whole visited grid: the size of the
/// visited-cell set.
pub open spec fn seen_count(g: Seq<Seq<bool>>) -> int
    decreases g.len(),
{
    if g.len() == 0 {
        0
    } else {
        seen_count(g.drop_last()) + row_count(g.last())
    }
}

pub proof fn lemma_row_count_bound(r: Seq<bool>)
    ensures
        0 <= row_count(r) <= r.len(),
    decreases r.len(),
{
    if r.len() > 0 {
        lemma_row_count_bound(r.drop_last());
    }
}

pub proof fn lemma_seen_count_bound(g: Seq<Seq<bool>>, w: int)
    requires
        forall|i: int| 0 <= i < g.len() ==> (#[trigger] g[i]).len() == w,
        0 <= w,
    ensures
        0 <= seen_count(g) <= g.len() * w,
    decreases g.len(),
{
    if g.len() > 0 {
        assert(forall|i: int|
            0 <= i < g.drop_last().len() ==> (#[trigger] g.drop_last()[i]).len() == w);
        lemma_seen_count_bound(g.drop_last(), w);
        lemma_row_count_bound(g.last());
        assert((g.len() - 1) * w + w == g.len() * w) by (nonlinear_arith);
    }
}

/// Marking one not-yet-visited entry raises the row's count by one.
proof fn lemma_row_count_update(r: Seq<bool>, j: int)
    requires
        0 <= j < r.len(),
        !r[j],
    ensures
        row_count(r.update(j, true)) == row_count(r) + 1,
    decreases r.len(),
{
    let u = r.update(j, true);
    if j == r.len() - 1 {
        assert(u.drop_last() =~= r.drop_last());
        assert(u.last());
    } else {
        assert(u.drop_last() =~= r.drop_last().update(j, true));
        assert(u.last() == r.last());
        lemma_row_count_update(r.drop_last(), j);
    }
}

/// Marking one not-yet-visited cell raises the grid's count by one.
pub proof fn lemma_seen_count_update(g: Seq<Seq<bool>>, i: int, j: int)
    requires
        0 <= i < g.len(),
        0 <= j < g[i].len(),
        !g[i][j],
    ensures
        seen_count(g.update(i, g[i].update(j, true))) == seen_count(g) + 1,
    decreases g.len(),
{
    let u = g.update(i, g[i].update(j, true));
    if i == g.len() - 1 {
        assert(u.drop_last() =~= g.drop_last());
        assert(u.last() =~= g.last().update(j, true));
        lemma_row_count_update(g.last(), j);
    } else {
        assert(u.drop_last() =~= g.drop_last().update(i, g[i].update(j, true)));
        assert(u.last() =~= g.last());
        lemma_seen_count_update(g.drop_last(), i, j);
    }
}

/// Mathematical model of one world's simulation state.
#[verifier::ext_equal]
pub ghost struct BoardModel {
    pub turn: int,
    pub id: int,
    pub row: int,
    pub col: int,
    pub seen: Seq<Seq<bool>>,
    pub game_score: int,
    pub evaluated_score: int,
    pub terminated: bool,
}

/// A world is done once its turn counter has reached the budget.
pub open spec fn done(b: BoardModel, cfg: Config) -> bool {
    b.turn == cfg.t
}

/// Row the agent would stand on after the move (before the wall check).
pub open spec fn target_row(row: int, action: int) -> int {
    if action == 2 {
        row - 1
    } else if action == 3 {
        row + 1
    } else {
        row
    }
}

/// Column the agent would stand on after the move (before the wall check).
pub open spec fn target_col(col: int, action: int) -> int {
    if action == 0 {
        col - 1
    } else if action == 1 {
        col + 1
    } else {
        col
    }
}

pub open spec fn in_bounds(cfg: Config, r: int, c: int) -> bool {
    0 <= r < cfg.h && 0 <= c < cfg.w
}

/// One move applied to one world's state. A terminated world no longer
/// changes at all. A move toward a wall, or off the grid, only spends the
/// turn. A move onto a trap moves the agent there, terminates the world
/// and spends the whole remaining budget. Any other move advances the
/// agent and scores one point when the cell had not been visited.
pub open spec fn step(cfg: Config, map: Seq<Seq<Cell>>, b: BoardModel, action: int) -> BoardModel {
    if b.terminated {
        b
    } else {
        let nr = target_row(b.row, action);
        let nc = target_col(b.col, action);
        if !in_bounds(cfg, nr, nc) || map[nr][nc] == Cell::Wall {
            BoardModel { turn: b.turn + 1, ..b }
        } else if map[nr][nc] == Cell::Trap {
            BoardModel { turn: cfg.t as int, row: nr, col: nc, terminated: true, ..b }
        } else if !b.seen[nr][nc] {
            BoardModel {
                turn: b.turn + 1,
                row: nr,
                col: nc,
                game_score: b.game_score + 1,
                seen: b.seen.update(nr, b.seen[nr].update(nc, true)),
                ..b
            }
        } else {
            BoardModel { turn: b.turn + 1, row: nr, col: nc, ..b }
        }
    }
}

impl BoardModel {
    /// Well-formedness of a world state against its pool: indices in
    /// range, the visited grid of the right shape, the agent inside the
    /// grid and never on a wall, the turn within the budget (pinned to the
    /// budget once terminated), and the score equal to the number of
    /// visited cells minus one (the start is visited but not scored).
    pub open spec fn wf(self, cfg: Config, maps: Seq<Seq<Seq<Cell>>>) -> bool {
        &&& 0 <= self.id < maps.len()
        &&& self.seen.len() == cfg.h
        &&& forall|i: int| 0 <= i < self.seen.len() ==> (#[trigger] self.seen[i]).len() == cfg.w
        &&& 0 <= self.row < cfg.h
        &&& 0 <= self.col < cfg.w
        &&& 0 <= self.turn <= cfg.t
        &&& 0 <= self.game_score
        &&& self.game_score + 1 == seen_count(self.seen)
        &&& maps[self.id][self.row][self.col] != Cell::Wall
        &&& (self.terminated ==> self.turn == cfg.t)
    }
}

/// A step keeps a world state well-formed, never lowers its score, and
/// never moves its agent onto a wall.
pub proof fn lemma_step_preserves_wf(
    cfg: Config,
    maps: Seq<Seq<Seq<Cell>>>,
    b: BoardModel,
    action: int,
)
    requires
        cfg.valid(),
        pool_wf(maps, cfg),
        b.wf(cfg, maps),
        0 <= action < 4,
        b.turn < cfg.t || b.terminated,
    ensures
        step(cfg, maps[b.id], b, action).wf(cfg, maps),
        step(cfg, maps[b.id], b, action).id == b.id,
        step(cfg, maps[b.id], b, action).game_score >= b.game_score,
        step(cfg, maps[b.id], b, action).evaluated_score == b.evaluated_score,
{
    let map = maps[b.id];
    let s = step(cfg, map, b, action);
    if !b.terminated {
        let nr = target_row(b.row, action);
        let nc = target_col(b.col, action);
        if in_bounds(cfg, nr, nc) && map[nr][nc] != Cell::Wall && map[nr][nc] != Cell::Trap
            && !b.seen[nr][nc] {
            lemma_seen_count_update(b.seen, nr, nc);
            lemma_seen_count_bound(s.seen, cfg.w as int);
        }
    }
}

/// Raised by `Board::new` when a map has no start cell; planning cannot
/// begin on such a pool.
#[derive(Clone, Copy, PartialEq, Eq, Structural, Debug)]
pub struct MalformedMapError;

/// One world under simulation: which map of the pool it plays on, and the
/// agent's mutable state on it.
pub struct Board {
    pub turn: usize,
    pub id: usize,
    pub row: usize,
    pub col: usize,
    pub seen: Vec<Vec<bool>>,
    pub game_score: i32,
    pub evaluated_score: i32,
    pub terminated: bool,
}

/// Mathematical view of the visited grid.
pub open spec fn seen_view(s: Vec<Vec<bool>>) -> Seq<Seq<bool>> {
    s@.map_values(|r: Vec<bool>| r@)
}

impl View for Board {
    type V = BoardModel;

    open spec fn view(&self) -> BoardModel {
        BoardModel {
            turn: self.turn as int,
            id: self.id as int,
            row: self.row as int,
            col: self.col as int,
            seen: seen_view(self.seen),
            game_score: self.game_score as int,
            evaluated_score: self.evaluated_score as int,
            terminated: self.terminated,
        }
    }
}

/// Marks one cell of the visited grid.
fn mark_seen(seen: &mut Vec<Vec<bool>>, i: usize, j: usize)
    requires
        i < old(seen)@.len(),
        j < old(seen)@[i as int]@.len(),
    ensures
        seen_view(*final(seen)) == seen_view(*old(seen)).update(
            i as int,
            seen_view(*old(seen))[i as int].update(j as int, true),
        ),
{
    let row = &mut seen[i];
    row.set(j, true);
    proof {
        assert(seen_view(*seen) =~~= seen_view(*old(seen)).update(
            i as int,
            seen_view(*old(seen))[i as int].update(j as int, true),
        ));
    }
}

/// A map holds a start cell somewhere.
pub open spec fn has_start(g: Seq<Seq<Cell>>) -> bool {
    exists|i: int, j: int|
        0 <= i < g.len() && 0 <= j < g[i].len() && g[i][j] == Cell::Start
}

/// The state `Board::new` hands out: turn zero, score zero, not
/// terminated, the agent on a start cell of its map, and exactly that
/// cell visited.
pub open spec fn fresh_on_start(b: BoardModel, cfg: Config, maps: Seq<Seq<Seq<Cell>>>, id: int) -> bool {
    &&& b.wf(cfg, maps)
    &&& b.id == id
    &&& b.turn == 0
    &&& b.game_score == 0
    &&& b.evaluated_score == 0
    &&& !b.terminated
    &&& maps[id][b.row][b.col] == Cell::Start
    &&& forall|i: int, j: int|
        0 <= i < b.seen.len() && 0 <= j < b.seen[i].len() ==> (#[trigger] b.seen[i][j] <==> (i
            == b.row && j == b.col))
}

impl Board {
    /// Scans the chosen map for a start cell and builds the initial
    /// state on it; fails when the map has none.
    pub fn new(cfg: &Config, maps: &Vec<Vec<Vec<Cell>>>, id: usize) -> (r: Result<
        Board,
        MalformedMapError,
    >)
        requires
            cfg.valid(),
            pool_wf(pool_of(maps), *cfg),
            id < cfg.n,
        ensures
            r is Ok <==> has_start(pool_of(maps)[id as int]),
            r matches Ok(b) ==> fresh_on_start(b@, *cfg, pool_of(maps), id as int),
    {
        let ghost g = pool_of(maps)[id as int];
        let map = &maps[id];
        let mut found = false;
        let mut srow: usize = 0;
        let mut scol: usize = 0;
        let mut i: usize = 0;
        while i < cfg.h
            invariant
                cfg.valid(),
                i <= cfg.h,
                grid_wf(g, *cfg),
                g == grid_of(*map),
                found ==> srow < cfg.h && scol < cfg.w && g[srow as int][scol as int]
                    == Cell::Start,
                !found ==> forall|a: int, b: int|
                    0 <= a < i && 0 <= b < cfg.w ==> g[a][b] != Cell::Start,
            decreases cfg.h - i,
        {
            let mut j: usize = 0;
            while j < cfg.w
                invariant
                    cfg.valid(),
                    i < cfg.h,
                    j <= cfg.w,
                    grid_wf(g, *cfg),
                    g == grid_of(*map),
                    found ==> srow < cfg.h && scol < cfg.w && g[srow as int][scol as int]
                        == Cell::Start,
                    !found ==> forall|a: int, b: int|
                        0 <= a < i && 0 <= b < cfg.w ==> g[a][b] != Cell::Start,
                    !found ==> forall|b: int| 0 <= b < j ==> g[i as int][b] != Cell::Start,
                decreases cfg.w - j,
            {
                if !found {
                    let c = map[i][j];
                    assert(c == g[i as int][j as int]);
                    if matches!(c, Cell::Start) {
                        found = true;
                        srow = i;
                        scol = j;
                    }
                }
                j = j + 1;
            }
            i = i + 1;
        }
        if !found {
            assert(!has_start(g));
            return Err(MalformedMapError);
        }
        let mut seen: Vec<Vec<bool>> = Vec::new();
        let mut i: usize = 0;
        while i < cfg.h
            invariant
                i <= cfg.h,
                seen@.len() == i,
                forall|a: int| 0 <= a < i ==> (#[trigger] seen@[a])@.len() == cfg.w,
                forall|a: int, b: int|
                    0 <= a < i && 0 <= b < cfg.w ==> !(#[trigger] seen@[a]@[b]),
            decreases cfg.h - i,
        {
            let mut row: Vec<bool> = Vec::new();
            let mut j: usize = 0;
            while j < cfg.w
                invariant
                    j <= cfg.w,
                    row@.len() == j,
                    forall|b: int| 0 <= b < j ==> !(#[trigger] row@[b]),
                decreases cfg.w - j,
            {
                row.push(false);
                j = j + 1;
            }
            seen.push(row);
            i = i + 1;
        }
        let ghost pre = seen_view(seen);
        proof {
            lemma_seen_count_all_false(pre);
        }
        mark_seen(&mut seen, srow, scol);
        proof {
            lemma_seen_count_update(pre, srow as int, scol as int);
        }
        let b = Board {
            turn: 0,
            id,
            row: srow,
            col: scol,
            seen,
            game_score: 0,
            evaluated_score: 0,
            terminated: false,
        };
        Ok(b)
    }
}

impl Board {
    /// True once this world's turn counter has reached the budget.
    pub fn is_done(&self, cfg: &Config) -> (r: bool)
        ensures
            r == done(self@, *cfg),
    {
        self.turn == cfg.t
    }

    /// Copies the raw game score into the evaluated score. The evaluated
    /// score is the seam for richer heuristics; in this design it equals
    /// the reward itself.
    pub fn evaluate_score(&mut self)
        ensures
            final(self)@ == (BoardModel { evaluated_score: old(self)@.game_score, ..old(self)@ }),
    {
        self.evaluated_score = self.game_score;
        proof {
            assert(self@ =~~= (BoardModel {
                evaluated_score: old(self)@.game_score,
                ..old(self)@
            }));
        }
    }

    /// An independent copy of this world's state, for scratch simulation.
    pub fn duplicate(&self) -> (r: Board)
        ensures
            r@ == self@,
    {
        let r = Board {
            turn: self.turn,
            id: self.id,
            row: self.row,
            col: self.col,
            seen: copy_seen(&self.seen),
            game_score: self.game_score,
            evaluated_score: self.evaluated_score,
            terminated: self.terminated,
        };
        proof {
            assert(r@ =~~= self@);
        }
        r
    }

    /// Applies one move to this world's real state, as `step` describes.
    pub fn advance(&mut self, cfg: &Config, maps: &Vec<Vec<Vec<Cell>>>, action: usize)
        requires
            cfg.valid(),
            pool_wf(pool_of(maps), *cfg),
            old(self)@.wf(*cfg, pool_of(maps)),
            action < 4,
            old(self)@.turn < cfg.t || old(self)@.terminated,
        ensures
            final(self)@ == step(
                *cfg,
                pool_of(maps)[old(self)@.id],
                old(self)@,
                action as int,
            ),
            final(self)@.wf(*cfg, pool_of(maps)),
    {
        proof {
            lemma_step_preserves_wf(*cfg, pool_of(maps), old(self)@, action as int);
        }
        if self.terminated {
            return;
        }
        let ghost map = pool_of(maps)[self@.id];
        let mut nr = self.row;
        let mut nc = self.col;
        let mut inside = true;
        if action == 0 {
            if self.col == 0 {
                inside = false;
            } else {
                nc = self.col - 1;
            }
        } else if action == 1 {
            if self.col + 1 >= cfg.w {
                inside = false;
            } else {
                nc = self.col + 1;
            }
        } else if action == 2 {
            if self.row == 0 {
                inside = false;
            } else {
                nr = self.row - 1;
            }
        } else {
            if self.row + 1 >= cfg.h {
                inside = false;
            } else {
                nr = self.row + 1;
            }
        }
        self.turn = self.turn + 1;
        if !inside {
            proof {
                assert(!in_bounds(*cfg, target_row(old(self)@.row, action as int),
                    target_col(old(self)@.col, action as int)));
                assert(self@ =~~= step(*cfg, map, old(self)@, action as int));
            }
            return;
        }
        let c = maps[self.id][nr][nc];
        proof {
            assert(c == map[nr as int][nc as int]);
        }
        match c {
            Cell::Wall => {
                proof {
                    assert(self@ =~~= step(*cfg, map, old(self)@, action as int));
                }
                return;
            },
            _ => {},
        }
        self.row = nr;
        self.col = nc;
        match c {
            Cell::Trap => {
                self.turn = cfg.t;
                self.terminated = true;
                proof {
                    assert(self@ =~~= step(*cfg, map, old(self)@, action as int));
                }
                return;
            },
            _ => {},
        }
        if !self.seen[nr][nc] {
            proof {
                lemma_seen_count_update(old(self)@.seen, nr as int, nc as int);
                lemma_seen_count_bound(
                    old(self)@.seen.update(
                        nr as int,
                        old(self)@.seen[nr as int].update(nc as int, true),
                    ),
                    cfg.w as int,
                );
            }
            self.game_score = self.game_score + 1;
            mark_seen(&mut self.seen, nr, nc);
        }
        proof {
            assert(self@ =~~= step(*cfg, map, old(self)@, action as int));
        }
    }
}

/// Copies one visited grid cell for cell.
fn copy_seen(g: &Vec<Vec<bool>>) -> (out: Vec<Vec<bool>>)
    ensures
        seen_view(out) == seen_view(*g),
{
    let mut out: Vec<Vec<bool>> = Vec::new();
    let mut i: usize = 0;
    while i < g.len()
        invariant
            i <= g.len(),
            out@.len() == i,
            forall|a: int| 0 <= a < i ==> (#[trigger] out@[a])@ == g@[a]@,
        decreases g.len() - i,
    {
        let src = &g[i];
        let mut row: Vec<bool> = Vec::new();
        let mut j: usize = 0;
        while j < src.len()
            invariant
                j <= src.len(),
                row@ == src@.take(j as int),
            decreases src.len() - j,
        {
            row.push(src[j]);
            proof {
                assert(row@ =~= src@.take(j + 1int));
            }
            j = j + 1;
        }
        proof {
            assert(row@ =~= src@);
        }
        out.push(row);
        i = i + 1;
    }
    proof {
        assert(seen_view(out) =~~= seen_view(*g));
    }
    out
}

/// The shape facts that scoring rests on: the visited grid has the
/// configured dimensions and the agent stands inside the grid.
pub open spec fn shaped(b: BoardModel, cfg: Config) -> bool {
    &&& b.seen.len() == cfg.h
    &&& forall|i: int| 0 <= i < b.seen.len() ==> (#[trigger] b.seen[i]).len() == cfg.w
    &&& 0 <= b.row < cfg.h
    &&& 0 <= b.col < cfg.w
}

/// One world's state after a whole sequence of moves.
pub open spec fn run_board(cfg: Config, map: Seq<Seq<Cell>>, b: BoardModel, acts: Seq<int>) -> BoardModel
    decreases acts.len(),
{
    if acts.len() == 0 {
        b
    } else {
        step(cfg, map, run_board(cfg, map, b, acts.drop_last()), acts.last())
    }
}

/// Law: a single move keeps the score equal to the number of visited
/// cells minus one.
pub proof fn lemma_step_counts_visited(cfg: Config, map: Seq<Seq<Cell>>, b: BoardModel, action: int)
    requires
        shaped(b, cfg),
        0 <= action < 4,
        b.game_score + 1 == seen_count(b.seen),
    ensures
        shaped(step(cfg, map, b, action), cfg),
        step(cfg, map, b, action).game_score + 1 == seen_count(step(cfg, map, b, action).seen),
{
    if !b.terminated {
        let nr = target_row(b.row, action);
        let nc = target_col(b.col, action);
        if in_bounds(cfg, nr, nc) && map[nr][nc] != Cell::Wall && map[nr][nc] != Cell::Trap
            && !b.seen[nr][nc] {
            lemma_seen_count_update(b.seen, nr, nc);
        }
    }
}

/// Law: after any sequence of moves, the score equals the number of
/// visited cells minus one — the start cell is visited from the outset
/// but never scored.
pub proof fn lemma_score_counts_visited(cfg: Config, map: Seq<Seq<Cell>>, b: BoardModel, acts: Seq<int>)
    requires
        shaped(b, cfg),
        forall|i: int| 0 <= i < acts.len() ==> 0 <= #[trigger] acts[i] < 4,
        b.game_score + 1 == seen_count(b.seen),
    ensures
        run_board(cfg, map, b, acts).game_score + 1 == seen_count(run_board(cfg, map, b, acts).seen),
    decreases acts.len(),
{
    if acts.len() > 0 {
        lemma_score_counts_visited(cfg, map, b, acts.drop_last());
        lemma_run_board_shaped(cfg, map, b, acts.drop_last());
        lemma_step_counts_visited(cfg, map, run_board(cfg, map, b, acts.drop_last()), acts.last());
    }
}

/// Any sequence of moves keeps the shape facts.
pub proof fn lemma_run_board_shaped(cfg: Config, map: Seq<Seq<Cell>>, b: BoardModel, acts: Seq<int>)
    requires
        shaped(b, cfg),
        forall|i: int| 0 <= i < acts.len() ==> 0 <= #[trigger] acts[i] < 4,
    ensures
        shaped(run_board(cfg, map, b, acts), cfg),
    decreases acts.len(),
{
    if acts.len() > 0 {
        lemma_run_board_shaped(cfg, map, b, acts.drop_last());
        lemma_step_counts_shape(cfg, map, run_board(cfg, map, b, acts.drop_last()), acts.last());
    }
}

proof fn lemma_step_counts_shape(cfg: Config, map: Seq<Seq<Cell>>, b: BoardModel, action: int)
    requires
        shaped(b, cfg),
        0 <= action < 4,
    ensures
        shaped(step(cfg, map, b, action), cfg),
{
}

/// Law: once a world is terminated, any further move changes nothing at
/// all — position, score, visited set and turn all stay as they are.
pub proof fn lemma_terminated_move_is_noop(cfg: Config, map: Seq<Seq<Cell>>, b: BoardModel, action: int)
    requires
        b.terminated,
    ensures
        step(cfg, map, b, action) == b,
{
}

/// Law: a move toward a wall, or off the grid, never changes the
/// position, the score or the visited set, and spends exactly one turn.
pub proof fn lemma_wall_move_only_spends_turn(
    cfg: Config,
    map: Seq<Seq<Cell>>,
    b: BoardModel,
    action: int,
)
    requires
        !b.terminated,
        !in_bounds(cfg, target_row(b.row, action), target_col(b.col, action)) || map[target_row(
            b.row,
            action,
        )][target_col(b.col, action)] == Cell::Wall,
    ensures
        step(cfg, map, b, action).row == b.row,
        step(cfg, map, b, action).col == b.col,
        step(cfg, map, b, action).game_score == b.game_score,
        step(cfg, map, b, action).seen == b.seen,
        step(cfg, map, b, action).turn == b.turn + 1,
{
}

/// An all-false visited grid counts zero visited cells.
proof fn lemma_seen_count_all_false(g: Seq<Seq<bool>>)
    requires
        forall|a: int, b: int|
            0 <= a < g.len() && 0 <= b < (#[trigger] g[a]).len() ==> !(#[trigger] g[a][b]),
    ensures
        seen_count(g) == 0,
    decreases g.len(),
{
    if g.len() > 0 {
        lemma_seen_count_all_false(g.drop_last());
        lemma_row_count_all_false(g.last());
    }
}

proof fn lemma_row_count_all_false(r: Seq<bool>)
    requires
        forall|b: int| 0 <= b < r.len() ==> !(#[trigger] r[b]),
    ensures
        row_count(r) == 0,
    decreases r.len(),
{
    if r.len() > 0 {
        lemma_row_count_all_false(r.drop_last());
    }
}

} // verus!
