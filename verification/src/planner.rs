use vstd::prelude::*;
use crate::Config;
use crate::greedy::{all_done, committee_wf, greedy_action, is_best_action, views_of};
use crate::sampler::{choice_boards, committee_of};
use crate::world::{Board, BoardModel, Cell, MalformedMapError, fresh_on_start, has_start,
    lemma_step_preserves_wf, pool_of, pool_wf, step};

verus! {

#[verifier::external_type_specification]
#[verifier::external_body]
pub struct ExInstant(std::time::Instant);

/// Relies on std::time::Instant::now: a reading of the monotonic clock;
/// nothing is promised of the value.
#[verifier::external_body]
fn monotonic_now() -> std::time::Instant {
    std::time::Instant::now()
}

/// Relies on std::time::Instant::elapsed: the time since the instant; it
/// depends on when the call is made, so nothing is promised of it.
#[verifier::external_body]
fn instant_elapsed(start: &std::time::Instant) -> std::time::Duration {
    start.elapsed()
}

/// Relies on std::time::Duration::as_millis: the duration in whole
/// milliseconds; nothing more is needed of it here.
#[verifier::external_body]
fn duration_as_millis(d: &std::time::Duration) -> u128 {
    d.as_millis()
}

/// The deadline service: remembers when the run started and how many
/// milliseconds it may take.
pub struct TimeKeeper {
    pub start: std::time::Instant,
    pub threshold_ms: u64,
}

/// The deadline rule itself, on a clock reading handed in as a plain
/// value: the budget has elapsed exactly when the elapsed milliseconds
/// reach the threshold.
pub fn deadline_reached(elapsed_ms: u128, threshold_ms: u64) -> (r: bool)
    ensures
        r == (elapsed_ms >= threshold_ms as u128),
{
    elapsed_ms >= threshold_ms as u128
}

impl TimeKeeper {
    /// Starts the clock with the given budget in milliseconds.
    pub fn new(threshold_ms: u64) -> (r: TimeKeeper)
        ensures
            r.threshold_ms == threshold_ms,
    {
        TimeKeeper { start: monotonic_now(), threshold_ms }
    }

    /// Whether the budget has elapsed: `deadline_reached` applied to the
    /// clock's current reading. The reading itself is outside this
    /// library's knowledge, so nothing more is promised of the answer;
    /// with a zero budget every reading reaches the threshold, so the
    /// answer is always true, which gives tests a deadline that has
    /// already fired.
    pub fn is_timeover(&self) -> (r: bool)
        ensures
            self.threshold_ms == 0 ==> r,
    {
        let elapsed = instant_elapsed(&self.start);
        let ms = duration_as_millis(&elapsed);
        deadline_reached(ms, self.threshold_ms)
    }

    /// Elapsed milliseconds since the keeper was created, as a
    /// diagnostic.
    pub fn time(&self) -> u128 {
        let elapsed = instant_elapsed(&self.start);
        duration_as_millis(&elapsed)
    }
}

/// One shared move applied to every world of the committee.
pub open spec fn step_all(
    cfg: Config,
    maps: Seq<Seq<Seq<Cell>>>,
    views: Seq<BoardModel>,
    action: int,
) -> Seq<BoardModel> {
    views.map_values(|b: BoardModel| step(cfg, maps[b.id], b, action))
}

/// The committee states after a whole sequence of shared moves.
pub open spec fn run_all(
    cfg: Config,
    maps: Seq<Seq<Seq<Cell>>>,
    views: Seq<BoardModel>,
    acts: Seq<usize>,
) -> Seq<BoardModel>
    decreases acts.len(),
{
    if acts.len() == 0 {
        views
    } else {
        step_all(cfg, maps, run_all(cfg, maps, views, acts.drop_last()), acts.last() as int)
    }
}

/// Greedy consistency of a plan: each of its moves is a best move for
/// the committee states that the moves before it produced, and was only
/// taken while some committee world was still live.
pub open spec fn greedy_plan(
    cfg: Config,
    maps: Seq<Seq<Seq<Cell>>>,
    init: Seq<BoardModel>,
    acts: Seq<usize>,
) -> bool {
    forall|i: int|
        0 <= i < acts.len() ==> {
            let st = run_all(cfg, maps, init, #[trigger] acts.take(i));
            !all_done(cfg, st) && is_best_action(cfg, maps, st, acts[i] as int)
        }
}

/// Turn bookkeeping the loop maintains: a terminated world sits at the
/// budget, every other world has seen exactly the committed moves.
pub open spec fn turns_in_sync(cfg: Config, views: Seq<BoardModel>, committed: int) -> bool {
    forall|i: int|
        0 <= i < views.len() ==> {
            let b = #[trigger] views[i];
            if b.terminated {
                b.turn == cfg.t
            } else {
                b.turn == committed
            }
        }
}

/// The planning loop's states: it keeps running until the deadline
/// fires, the turn budget is spent, or no committee world is left to
/// move.
#[derive(Clone, Copy, PartialEq, Eq, Structural, Debug)]
pub enum LoopState {
    Running,
    DeadlineStopped,
    BudgetExhausted,
    NoMoveLeft,
}

/// The state one iteration of the loop must end in, given the deadline
/// poll and the situation before the iteration: the checks fall in this
/// fixed order.
pub open spec fn loop_verdict(
    cfg: Config,
    views: Seq<BoardModel>,
    committed: int,
    timeover: bool,
) -> LoopState {
    if timeover {
        LoopState::DeadlineStopped
    } else if committed == cfg.t {
        LoopState::BudgetExhausted
    } else if all_done(cfg, views) {
        LoopState::NoMoveLeft
    } else {
        LoopState::Running
    }
}

/// One iteration of the planning loop, with the deadline poll handed in
/// as a plain value so that every outcome of the poll is covered: on any
/// stopping verdict nothing changes; while running, the selector's best
/// move is appended to the plan and committed to every committee world's
/// real state.
pub fn plan_step(
    cfg: &Config,
    maps: &Vec<Vec<Vec<Cell>>>,
    boards: &mut Vec<Board>,
    out: &mut Vec<usize>,
    timeover: bool,
) -> (r: LoopState)
    requires
        cfg.valid(),
        pool_wf(pool_of(maps), *cfg),
        old(boards)@.len() == cfg.k,
        committee_wf(*cfg, pool_of(maps), views_of(old(boards)@)),
        turns_in_sync(*cfg, views_of(old(boards)@), old(out)@.len() as int),
        old(out)@.len() <= cfg.t,
    ensures
        r == loop_verdict(*cfg, views_of(old(boards)@), old(out)@.len() as int, timeover),
        r != LoopState::Running ==> *final(boards) == *old(boards) && final(out)@ == old(out)@,
        r == LoopState::Running ==> {
            &&& final(out)@.len() == old(out)@.len() + 1
            &&& final(out)@.drop_last() == old(out)@
            &&& final(out)@.last() < 4
            &&& !all_done(*cfg, views_of(old(boards)@))
            &&& is_best_action(
                *cfg,
                pool_of(maps),
                views_of(old(boards)@),
                final(out)@.last() as int,
            )
            &&& views_of(final(boards)@) == step_all(
                *cfg,
                pool_of(maps),
                views_of(old(boards)@),
                final(out)@.last() as int,
            )
            &&& final(boards)@.len() == cfg.k
            &&& committee_wf(*cfg, pool_of(maps), views_of(final(boards)@))
            &&& turns_in_sync(*cfg, views_of(final(boards)@), final(out)@.len() as int)
        },
{
    let ghost mapsv = pool_of(maps);
    if timeover {
        return LoopState::DeadlineStopped;
    }
    if out.len() == cfg.t {
        return LoopState::BudgetExhausted;
    }
    match greedy_action(cfg, maps, boards) {
        None => LoopState::NoMoveLeft,
        Some(action) => {
            let ghost pre = views_of(boards@);
            let ghost committed = out@.len() as int;
            let mut i: usize = 0;
            while i < boards.len()
                invariant
                    cfg.valid(),
                    pool_wf(mapsv, *cfg),
                    mapsv == pool_of(maps),
                    boards@.len() == pre.len(),
                    i <= pre.len(),
                    action < 4,
                    committee_wf(*cfg, mapsv, pre),
                    turns_in_sync(*cfg, pre, committed),
                    committed < cfg.t,
                    forall|j: int|
                        0 <= j < i ==> boards@[j]@ == step(
                            *cfg,
                            mapsv[(#[trigger] pre[j]).id],
                            pre[j],
                            action as int,
                        ),
                    forall|j: int| i <= j < pre.len() ==> boards@[j]@ == #[trigger] pre[j],
                decreases pre.len() - i,
            {
                proof {
                    assert(boards@[i as int]@ == pre[i as int]);
                    assert(pre[i as int].wf(*cfg, mapsv));
                }
                let bref = &mut boards[i];
                bref.advance(cfg, maps, action);
                i = i + 1;
            }
            proof {
                assert forall|j: int| 0 <= j < pre.len() implies #[trigger] step_all(
                    *cfg,
                    mapsv,
                    pre,
                    action as int,
                )[j] == boards@[j]@ by {
                    assert(step_all(*cfg, mapsv, pre, action as int)[j] == step(
                        *cfg,
                        mapsv[pre[j].id],
                        pre[j],
                        action as int,
                    ));
                }
                assert(views_of(boards@) =~= step_all(*cfg, mapsv, pre, action as int));
                assert forall|j: int| 0 <= j < pre.len() implies (#[trigger] views_of(
                    boards@,
                )[j]).wf(*cfg, mapsv) by {
                    lemma_step_preserves_wf(*cfg, mapsv, pre[j], action as int);
                }
            }
            out.push(action);
            proof {
                assert(out@.drop_last() =~= old(out)@);
                assert(out@.last() == action);
                assert forall|j: int| 0 <= j < views_of(boards@).len() implies {
                    let b = #[trigger] views_of(boards@)[j];
                    if b.terminated {
                        b.turn == cfg.t
                    } else {
                        b.turn == committed + 1
                    }
                } by {
                    assert(views_of(boards@)[j] == step(
                        *cfg,
                        mapsv[pre[j].id],
                        pre[j],
                        action as int,
                    ));
                    assert(if pre[j].terminated {
                        pre[j].turn == cfg.t
                    } else {
                        pre[j].turn == committed
                    });
                }
            }
            LoopState::Running
        },
    }
}

/// Drives the run: polls the deadline once per turn and asks `plan_step`
/// to commit the selector's move until a stopping verdict comes back.
/// The returned plan never exceeds the budget, is greedy-consistent, and
/// the committee states end exactly as replaying it prescribes; a
/// deadline of zero stops the loop before any move.
pub fn plan(cfg: &Config, maps: &Vec<Vec<Vec<Cell>>>, boards: &mut Vec<Board>, keeper: &TimeKeeper) -> (out:
    Vec<usize>)
    requires
        cfg.valid(),
        pool_wf(pool_of(maps), *cfg),
        old(boards)@.len() == cfg.k,
        committee_wf(*cfg, pool_of(maps), views_of(old(boards)@)),
        turns_in_sync(*cfg, views_of(old(boards)@), 0),
    ensures
        out@.len() <= cfg.t,
        forall|i: int| 0 <= i < out@.len() ==> (#[trigger] out@[i]) < 4,
        views_of(final(boards)@) == run_all(*cfg, pool_of(maps), views_of(old(boards)@), out@),
        greedy_plan(*cfg, pool_of(maps), views_of(old(boards)@), out@),
        final(boards)@.len() == cfg.k,
        committee_wf(*cfg, pool_of(maps), views_of(final(boards)@)),
        keeper.threshold_ms == 0 ==> out@.len() == 0,
{
    let ghost mapsv = pool_of(maps);
    let ghost init = views_of(boards@);
    let mut out: Vec<usize> = Vec::new();
    let mut state = LoopState::Running;
    while matches!(state, LoopState::Running)
        invariant
            cfg.valid(),
            pool_wf(mapsv, *cfg),
            mapsv == pool_of(maps),
            boards@.len() == cfg.k,
            committee_wf(*cfg, mapsv, views_of(boards@)),
            out@.len() <= cfg.t,
            forall|i: int| 0 <= i < out@.len() ==> (#[trigger] out@[i]) < 4,
            views_of(boards@) == run_all(*cfg, mapsv, init, out@),
            greedy_plan(*cfg, mapsv, init, out@),
            turns_in_sync(*cfg, views_of(boards@), out@.len() as int),
            keeper.threshold_ms == 0 ==> out@.len() == 0,
        decreases cfg.t - out@.len(), (if state is Running { 1int } else { 0int }),
    {
        let timeover = keeper.is_timeover();
        let ghost pre = views_of(boards@);
        let ghost prev_out = out@;
        state = plan_step(cfg, maps, boards, &mut out, timeover);
        proof {
            if state is Running {
                let action = out@.last();
                assert(out@.drop_last() == prev_out);
                assert(out@ =~= prev_out.push(action));
                assert(views_of(boards@) == run_all(*cfg, mapsv, init, out@));
                assert forall|i2: int| 0 <= i2 < out@.len() implies {
                    let st = run_all(*cfg, mapsv, init, #[trigger] out@.take(i2));
                    !all_done(*cfg, st) && is_best_action(*cfg, mapsv, st, out@[i2] as int)
                } by {
                    if i2 < prev_out.len() {
                        assert(out@.take(i2) =~= prev_out.take(i2));
                        assert(out@[i2] == prev_out[i2]);
                    } else {
                        assert(out@.take(i2) =~= prev_out);
                        assert(run_all(*cfg, mapsv, init, prev_out) == pre);
                    }
                }
            }
        }
    }
    out
}

/// Builds the committee's worlds from the chosen pool indices; fails as
/// soon as one of the chosen maps has no start cell.
pub fn make_boards(cfg: &Config, maps: &Vec<Vec<Vec<Cell>>>, choice: &Vec<usize>) -> (r: Result<
    Vec<Board>,
    MalformedMapError,
>)
    requires
        cfg.valid(),
        pool_wf(pool_of(maps), *cfg),
        forall|i: int| 0 <= i < choice@.len() ==> (#[trigger] choice@[i]) < cfg.n,
    ensures
        r matches Ok(bs) ==> {
            &&& bs@.len() == choice@.len()
            &&& forall|i: int|
                0 <= i < bs@.len() ==> fresh_on_start(
                    (#[trigger] bs@[i])@,
                    *cfg,
                    pool_of(maps),
                    choice@[i] as int,
                )
            &&& committee_wf(*cfg, pool_of(maps), views_of(bs@))
            &&& turns_in_sync(*cfg, views_of(bs@), 0)
        },
        r is Ok <==> forall|i: int|
            0 <= i < choice@.len() ==> has_start(pool_of(maps)[(#[trigger] choice@[i]) as int]),
{
    let ghost mapsv = pool_of(maps);
    let mut bs: Vec<Board> = Vec::new();
    let mut i: usize = 0;
    while i < choice.len()
        invariant
            cfg.valid(),
            pool_wf(mapsv, *cfg),
            mapsv == pool_of(maps),
            forall|j: int| 0 <= j < choice@.len() ==> (#[trigger] choice@[j]) < cfg.n,
            i <= choice@.len(),
            bs@.len() == i,
            forall|j: int|
                0 <= j < i ==> fresh_on_start(
                    (#[trigger] bs@[j])@,
                    *cfg,
                    mapsv,
                    choice@[j] as int,
                ),
            forall|j: int| 0 <= j < i ==> has_start(mapsv[(#[trigger] choice@[j]) as int]),
        decreases choice@.len() - i,
    {
        match Board::new(cfg, maps, choice[i]) {
            Ok(b) => {
                bs.push(b);
            },
            Err(e) => {
                proof {
                    assert(!has_start(mapsv[choice@[i as int] as int]));
                }
                return Err(e);
            },
        }
        i = i + 1;
    }
    proof {
        assert forall|j: int| 0 <= j < bs@.len() implies (#[trigger] views_of(bs@)[j]).wf(
            *cfg,
            mapsv,
        ) by {
            assert(views_of(bs@)[j] == bs@[j]@);
        }
        assert forall|j: int| 0 <= j < bs@.len() implies {
            let b = #[trigger] views_of(bs@)[j];
            if b.terminated {
                b.turn == cfg.t
            } else {
                b.turn == 0
            }
        } by {
            assert(views_of(bs@)[j] == bs@[j]@);
        }
    }
    Ok(bs)
}

/// The symbol for each direction, in the fixed order left, right, up,
/// down.
pub open spec fn action_char(a: int) -> char {
    if a == 0 {
        'L'
    } else if a == 1 {
        'R'
    } else if a == 2 {
        'U'
    } else {
        'D'
    }
}

/// Renders a move sequence as its direction symbols.
pub fn render_plan(acts: &Vec<usize>) -> (s: Vec<char>)
    ensures
        s@.len() == acts@.len(),
        forall|i: int| 0 <= i < s@.len() ==> #[trigger] s@[i] == action_char(acts@[i] as int),
{
    let mut s: Vec<char> = Vec::new();
    let mut i: usize = 0;
    while i < acts.len()
        invariant
            i <= acts@.len(),
            s@.len() == i,
            forall|j: int| 0 <= j < i ==> #[trigger] s@[j] == action_char(acts@[j] as int),
        decreases acts@.len() - i,
    {
        let a = acts[i];
        let c: char = if a == 0 {
            'L'
        } else if a == 1 {
            'R'
        } else if a == 2 {
            'U'
        } else {
            'D'
        };
        s.push(c);
        i = i + 1;
    }
    s
}

/// Everything one planning run emits: the committee's pool indices and
/// the committed move sequence.
pub struct RunResult {
    pub choice: Vec<usize>,
    pub moves: Vec<usize>,
}

/// One whole planning run: draws the committee with the seeded sampler,
/// builds its worlds, and plans greedily until the deadline or the
/// budget stops it. Fails exactly when a chosen map has no start cell.
pub fn solve(cfg: &Config, maps: &Vec<Vec<Vec<Cell>>>, seed: u64, keeper: &TimeKeeper) -> (r: Result<
    RunResult,
    MalformedMapError,
>)
    requires
        cfg.valid(),
        pool_wf(pool_of(maps), *cfg),
    ensures
        r is Ok <==> forall|i: int|
            0 <= i < cfg.k ==> has_start(
                pool_of(maps)[(#[trigger] committee_of(seed, cfg.n as int, cfg.k as int)[i]) as int],
            ),
        r matches Ok(rr) ==> {
            &&& rr.choice@ == committee_of(seed, cfg.n as int, cfg.k as int)
            &&& rr.moves@.len() <= cfg.t
            &&& forall|i: int| 0 <= i < rr.moves@.len() ==> (#[trigger] rr.moves@[i]) < 4
            &&& exists|init: Seq<BoardModel>|
                {
                    &&& init.len() == cfg.k
                    &&& forall|i: int|
                        0 <= i < init.len() ==> fresh_on_start(
                            #[trigger] init[i],
                            *cfg,
                            pool_of(maps),
                            rr.choice@[i] as int,
                        )
                    &&& greedy_plan(*cfg, pool_of(maps), init, rr.moves@)
                }
            &&& (keeper.threshold_ms == 0 ==> rr.moves@.len() == 0)
        },
{
    let choice = choice_boards(seed, cfg);
    let mut boards = match make_boards(cfg, maps, &choice) {
        Ok(bs) => bs,
        Err(e) => {
            return Err(e);
        },
    };
    let ghost init = views_of(boards@);
    let moves = plan(cfg, maps, &mut boards, keeper);
    proof {
        assert(init.len() == cfg.k);
        assert(forall|i: int|
            0 <= i < init.len() ==> fresh_on_start(
                #[trigger] init[i],
                *cfg,
                pool_of(maps),
                choice@[i] as int,
            ));
    }
    Ok(RunResult { choice, moves })
}

} // verus!
