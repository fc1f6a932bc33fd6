use vstd::prelude::*;
use crate::Config;
use crate::world::{Board, BoardModel, Cell, done, step, pool_of, pool_wf, lemma_step_preserves_wf,
    lemma_seen_count_bound};

verus! {

/// The views of a committee of boards.
pub open spec fn views_of(boards: Seq<Board>) -> Seq<BoardModel> {
    boards.map_values(|b: Board| b@)
}

/// Sum, over the committee, of the score each world would show after the
/// move. A world that is already done is ignored and contributes nothing.
pub open spec fn committee_value(
    cfg: Config,
    maps: Seq<Seq<Seq<Cell>>>,
    views: Seq<BoardModel>,
    action: int,
) -> int
    decreases views.len(),
{
    if views.len() == 0 {
        0
    } else {
        committee_value(cfg, maps, views.drop_last(), action) + if done(views.last(), cfg) {
            0int
        } else {
            step(cfg, maps[views.last().id], views.last(), action).game_score
        }
    }
}

/// The move the selector owes its caller: no other move sums higher, and
/// every move earlier in the fixed order (left, right, up, down) sums
/// strictly lower, so ties fall to the first of the order.
pub open spec fn is_best_action(
    cfg: Config,
    maps: Seq<Seq<Seq<Cell>>>,
    views: Seq<BoardModel>,
    action: int,
) -> bool {
    &&& 0 <= action < 4
    &&& forall|b: int|
        0 <= b < 4 ==> #[trigger] committee_value(cfg, maps, views, b) <= committee_value(
            cfg,
            maps,
            views,
            action,
        )
    &&& forall|b: int|
        0 <= b < action ==> #[trigger] committee_value(cfg, maps, views, b) < committee_value(
            cfg,
            maps,
            views,
            action,
        )
}

/// Every world of the committee has spent its budget.
pub open spec fn all_done(cfg: Config, views: Seq<BoardModel>) -> bool {
    forall|i: int| 0 <= i < views.len() ==> done(#[trigger] views[i], cfg)
}

/// Committee well-formedness: every board's state is well-formed.
pub open spec fn committee_wf(cfg: Config, maps: Seq<Seq<Seq<Cell>>>, views: Seq<BoardModel>) -> bool {
    forall|i: int| 0 <= i < views.len() ==> (#[trigger] views[i]).wf(cfg, maps)
}

/// The summed value of any move lies between zero and the committee size
/// times the grid area.
pub proof fn lemma_committee_value_bounds(
    cfg: Config,
    maps: Seq<Seq<Seq<Cell>>>,
    views: Seq<BoardModel>,
    action: int,
)
    requires
        cfg.valid(),
        pool_wf(maps, cfg),
        committee_wf(cfg, maps, views),
        0 <= action < 4,
    ensures
        0 <= committee_value(cfg, maps, views, action) <= views.len() * (cfg.h * cfg.w),
    decreases views.len(),
{
    if views.len() > 0 {
        assert(committee_wf(cfg, maps, views.drop_last()));
        lemma_committee_value_bounds(cfg, maps, views.drop_last(), action);
        let b = views.last();
        if !done(b, cfg) {
            lemma_step_preserves_wf(cfg, maps, b, action);
            let s = step(cfg, maps[b.id], b, action);
            lemma_seen_count_bound(s.seen, cfg.w as int);
            assert(s.game_score <= cfg.h * cfg.w);
        }
        assert((views.len() - 1) * (cfg.h * cfg.w) + (cfg.h * cfg.w) == views.len() * (cfg.h
            * cfg.w)) by (nonlinear_arith);
    }
}

/// Sums, over the committee, the score each world would show after the
/// given move, simulating on scratch copies only.
fn committee_score(cfg: &Config, maps: &Vec<Vec<Vec<Cell>>>, boards: &Vec<Board>, action: usize) -> (s:
    i32)
    requires
        cfg.valid(),
        pool_wf(pool_of(maps), *cfg),
        committee_wf(*cfg, pool_of(maps), views_of(boards@)),
        boards@.len() <= cfg.k,
        action < 4,
    ensures
        s == committee_value(*cfg, pool_of(maps), views_of(boards@), action as int),
{
    let ghost mapsv = pool_of(maps);
    let ghost views = views_of(boards@);
    let mut s: i32 = 0;
    let mut i: usize = 0;
    while i < boards.len()
        invariant
            cfg.valid(),
            pool_wf(mapsv, *cfg),
            mapsv == pool_of(maps),
            views == views_of(boards@),
            committee_wf(*cfg, mapsv, views),
            boards@.len() <= cfg.k,
            action < 4,
            i <= boards@.len(),
            s == committee_value(*cfg, mapsv, views.take(i as int), action as int),
            0 <= s,
        decreases boards@.len() - i,
    {
        proof {
            assert(committee_wf(*cfg, mapsv, views.take(i as int)));
            lemma_committee_value_bounds(*cfg, mapsv, views.take(i as int), action as int);
            assert(committee_wf(*cfg, mapsv, views.take(i + 1int)));
            lemma_committee_value_bounds(*cfg, mapsv, views.take(i + 1int), action as int);
            assert(views.take(i + 1int).drop_last() =~= views.take(i as int));
            assert(views.take(i + 1int).last() == views[i as int]);
            assert(views.take(i + 1int).len() * (cfg.h * cfg.w) <= cfg.k * (cfg.h * cfg.w))
                by (nonlinear_arith)
                requires
                    views.take(i + 1int).len() <= cfg.k,
                    0 <= cfg.h * cfg.w,
            ;
        }
        if !boards[i].is_done(cfg) {
            let mut scratch = boards[i].duplicate();
            scratch.advance(cfg, maps, action);
            scratch.evaluate_score();
            s = s + scratch.evaluated_score;
        }
        i = i + 1;
    }
    proof {
        assert(views.take(boards@.len() as int) =~= views);
    }
    s
}

/// Tries all four moves against the committee, simulating each on scratch
/// copies, and returns the one with the greatest summed score, the first
/// of the fixed order on a tie; returns nothing when every committee
/// world is already done.
pub fn greedy_action(cfg: &Config, maps: &Vec<Vec<Vec<Cell>>>, boards: &Vec<Board>) -> (r: Option<
    usize,
>)
    requires
        cfg.valid(),
        pool_wf(pool_of(maps), *cfg),
        committee_wf(*cfg, pool_of(maps), views_of(boards@)),
        boards@.len() <= cfg.k,
    ensures
        r is None <==> all_done(*cfg, views_of(boards@)),
        r matches Some(a) ==> is_best_action(*cfg, pool_of(maps), views_of(boards@), a as int),
{
    let ghost mapsv = pool_of(maps);
    let ghost views = views_of(boards@);
    let mut any_active = false;
    let mut i: usize = 0;
    while i < boards.len()
        invariant
            views == views_of(boards@),
            i <= boards@.len(),
            any_active <==> exists|j: int| 0 <= j < i && !done(#[trigger] views[j], *cfg),
        decreases boards@.len() - i,
    {
        proof {
            assert(views[i as int] == boards@[i as int]@);
        }
        if !boards[i].is_done(cfg) {
            any_active = true;
            proof {
                assert(!done(views[i as int], *cfg));
            }
        }
        i = i + 1;
    }
    if !any_active {
        return None;
    }
    let mut best_action: usize = 0;
    let mut best_score: i32 = committee_score(cfg, maps, boards, 0);
    let mut a: usize = 1;
    while a < 4
        invariant
            cfg.valid(),
            pool_wf(mapsv, *cfg),
            mapsv == pool_of(maps),
            views == views_of(boards@),
            committee_wf(*cfg, mapsv, views),
            boards@.len() <= cfg.k,
            1 <= a <= 4,
            best_action < a,
            best_score == committee_value(*cfg, mapsv, views, best_action as int),
            forall|b: int|
                0 <= b < a ==> #[trigger] committee_value(*cfg, mapsv, views, b) <= best_score,
            forall|b: int|
                0 <= b < best_action ==> #[trigger] committee_value(*cfg, mapsv, views, b)
                    < best_score,
        decreases 4 - a,
    {
        let s = committee_score(cfg, maps, boards, a);
        if s > best_score {
            best_score = s;
            best_action = a;
        }
        a = a + 1;
    }
    Some(best_action)
}

} // verus!

