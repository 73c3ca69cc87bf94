//! The search driver: a randomized anytime search under a wall-clock
//! deadline. Each iteration draws a plan of eight directions, rolls the plan
//! forward through the world model for a few ticks per direction on a
//! snapshot of the real state, and keeps the first direction of the plan
//! whose rollout scored best. The winning direction is applied to the real
//! agent position and the result clamped onto the playfield.
use vstd::prelude::*;
use crate::{MAX_X, MAX_Y};
use crate::geometry::{Point, Dir};
use crate::world::{
    State,
    WorldModel,
    pos_bounded,
    coord_within,
    next_spec,
    lemma_next_spec_bounds,
    lemma_next_spec_lens,
    lemma_next_spec_score,
};
use crate::sampler::{ActionGen, PLAN_LEN};
use crate::clock::{instant_now, elapsed_since, duration_millis};

verus! {

/// The wall-clock budget of one search invocation, in milliseconds.
pub const DEADLINE_MILLIS: u128 = 95;

/// A point on the playfield proper.
pub open spec fn in_field(p: Point) -> bool {
    0 <= p.x <= MAX_X && 0 <= p.y <= MAX_Y
}

/// Every position of the state on the playfield proper.
pub open spec fn on_playfield(s: WorldModel) -> bool {
    &&& in_field(s.player.pos)
    &&& forall|i: int| 0 <= i < s.humans.len() ==> in_field((#[trigger] s.humans[i]).pos)
    &&& forall|i: int| 0 <= i < s.zombies.len() ==> in_field((#[trigger] s.zombies[i]).pos)
}

/// The minimum integer distance from `from` to any of `ps`; zero when there
/// is nothing to measure.
pub open spec fn min_range_from(ps: Seq<Point>, from: Point) -> int
    decreases ps.len(),
{
    if ps.len() == 0 {
        0
    } else {
        let rest = min_range_from(ps.drop_last(), from);
        let d = ps.last().range_spec(from);
        if ps.len() == 1 {
            d
        } else if d < rest {
            d
        } else {
            rest
        }
    }
}

/// The positions of a sequence of humans.
pub open spec fn human_positions(hs: Seq<crate::world::Human>) -> Seq<Point> {
    hs.map_values(|h: crate::world::Human| h.pos)
}

/// The positions of a sequence of zombies.
pub open spec fn zombie_positions(zs: Seq<crate::world::Zombie>) -> Seq<Point> {
    zs.map_values(|z: crate::world::Zombie| z.pos)
}

/// Look-ahead depth of the search: five ticks per direction when nothing is
/// close (nearest human and nearest zombie both farther than 5000), one
/// otherwise.
pub open spec fn search_steps(s: WorldModel) -> int {
    if min_range_from(human_positions(s.humans), s.player.pos) > 5000 || min_range_from(
        zombie_positions(s.zombies),
        s.player.pos,
    ) > 5000 {
        5
    } else {
        1
    }
}

/// The agent's step distance: 1000 when the nearest human is farther than
/// 1000, 500 otherwise.
pub open spec fn search_step_dist(s: WorldModel) -> int {
    if min_range_from(human_positions(s.humans), s.player.pos) > 1000 {
        1000
    } else {
        500
    }
}

/// A coordinate clamped into `[0, hi]`.
pub open spec fn clamp_coord(v: int, hi: int) -> int {
    if v < 0 {
        0
    } else if v > hi {
        hi
    } else {
        v
    }
}

/// The turn's output for a winning direction `d`: the agent's real position
/// advanced along `d` by the search's step distance, clamped onto the
/// playfield.
pub open spec fn clamped_output(p: Point, d: Dir, dist: int) -> Point {
    let m = Point::move_dir_spec(p, d, dist);
    Point {
        x: clamp_coord(m.x as int, MAX_X as int) as i32,
        y: clamp_coord(m.y as int, MAX_Y as int) as i32,
    }
}

/// The minimum integer distance from the agent at `from` to any human.
fn min_human_range(humans: &Vec<crate::world::Human>, from: Point) -> (r: i32)
    requires
        from.in_bounds(),
        forall|i: int| 0 <= i < humans@.len() ==> (#[trigger] humans@[i]).pos.in_bounds(),
    ensures
        r as int == min_range_from(human_positions(humans@), from),
{
    let mut r: i32 = 0;
    let mut i: usize = 0;
    while i < humans.len()
        invariant
            i <= humans@.len(),
            from.in_bounds(),
            forall|j: int| 0 <= j < humans@.len() ==> (#[trigger] humans@[j]).pos.in_bounds(),
            r as int == min_range_from(human_positions(humans@).take(i as int), from),
        decreases humans@.len() - i,
    {
        let d = humans[i].pos.range(&from);
        proof {
            let ps = human_positions(humans@);
            assert(ps.take(i + 1).drop_last() =~= ps.take(i as int));
            assert(ps.take(i + 1).last() == humans@[i as int].pos);
        }
        if i == 0 || d < r {
            r = d;
        }
        i = i + 1;
    }
    proof {
        assert(human_positions(humans@).take(humans@.len() as int) =~= human_positions(humans@));
    }
    r
}

/// The minimum integer distance from the agent at `from` to any zombie.
fn min_zombie_range(zombies: &Vec<crate::world::Zombie>, from: Point) -> (r: i32)
    requires
        from.in_bounds(),
        forall|i: int| 0 <= i < zombies@.len() ==> (#[trigger] zombies@[i]).pos.in_bounds(),
    ensures
        r as int == min_range_from(zombie_positions(zombies@), from),
{
    let mut r: i32 = 0;
    let mut i: usize = 0;
    while i < zombies.len()
        invariant
            i <= zombies@.len(),
            from.in_bounds(),
            forall|j: int| 0 <= j < zombies@.len() ==> (#[trigger] zombies@[j]).pos.in_bounds(),
            r as int == min_range_from(zombie_positions(zombies@).take(i as int), from),
        decreases zombies@.len() - i,
    {
        let d = zombies[i].pos.range(&from);
        proof {
            let ps = zombie_positions(zombies@);
            assert(ps.take(i + 1).drop_last() =~= ps.take(i as int));
            assert(ps.take(i + 1).last() == zombies@[i as int].pos);
        }
        if i == 0 || d < r {
            r = d;
        }
        i = i + 1;
    }
    proof {
        assert(zombie_positions(zombies@).take(zombies@.len() as int) =~= zombie_positions(
            zombies@,
        ));
    }
    r
}

/// Whether the search deadline has passed since `start` was read.
fn deadline_reached(start: &std::time::Instant) -> bool {
    let e = elapsed_since(start);
    duration_millis(&e) >= DEADLINE_MILLIS
}

/// The state after `k` ticks along direction `d` with agent step `dist`.
pub open spec fn rollout(s: WorldModel, d: Dir, k: int, dist: int) -> WorldModel
    decreases k,
{
    if k <= 0 {
        s
    } else {
        next_spec(rollout(s, d, k - 1, dist), d, dist)
    }
}

/// The state after playing `plan` from its `i`-th direction on: each
/// direction is held for `steps` ticks in order, and once the score reaches
/// the sentinel minimum the rest of the plan is abandoned.
pub open spec fn plan_rollout(
    s: WorldModel,
    plan: Seq<Dir>,
    i: int,
    steps: int,
    dist: int,
) -> WorldModel
    decreases plan.len() - i,
{
    if i >= plan.len() {
        s
    } else {
        let s2 = rollout(s, plan[i], steps, dist);
        if s2.score == i64::MIN as int {
            s2
        } else {
            plan_rollout(s2, plan, i + 1, steps, dist)
        }
    }
}

/// The score a full rollout of `plan` reaches from `s`.
pub open spec fn plan_score(s: WorldModel, plan: Seq<Dir>, steps: int, dist: int) -> int {
    plan_rollout(s, plan, 0, steps, dist).score
}

/// The search's running best over the plans from index `i` on, holding score
/// `bs` and direction `bd`: a plan replaces the held pair exactly when its
/// rollout score strictly exceeds the held score, and what is recorded is the
/// plan's first direction — never the direction inside the plan that caused
/// the improvement.
pub open spec fn fold_plans(
    s: WorldModel,
    plans: Seq<Seq<Dir>>,
    steps: int,
    dist: int,
    i: int,
    bs: int,
    bd: Dir,
) -> (int, Dir)
    decreases plans.len() - i,
{
    if i >= plans.len() {
        (bs, bd)
    } else {
        let sc = plan_score(s, plans[i], steps, dist);
        if sc > bs {
            fold_plans(s, plans, steps, dist, i + 1, sc, plans[i][0])
        } else {
            fold_plans(s, plans, steps, dist, i + 1, bs, bd)
        }
    }
}

/// The direction the search emits for a drawn sequence of plans: the head of
/// the earliest best-scoring plan, or stand-still when no rollout beats the
/// sentinel minimum.
pub open spec fn best_head(s: WorldModel, plans: Seq<Seq<Dir>>, steps: int, dist: int) -> Dir {
    fold_plans(s, plans, steps, dist, 0, i64::MIN as int, Dir::Stay).1
}

proof fn lemma_fold_plans_push(
    s: WorldModel,
    plans: Seq<Seq<Dir>>,
    p: Seq<Dir>,
    steps: int,
    dist: int,
    i: int,
    bs: int,
    bd: Dir,
)
    requires
        0 <= i <= plans.len(),
    ensures
        ({
            let prev = fold_plans(s, plans, steps, dist, i, bs, bd);
            let sc = plan_score(s, p, steps, dist);
            fold_plans(s, plans.push(p), steps, dist, i, bs, bd) == if sc > prev.0 {
                (sc, p[0])
            } else {
                prev
            }
        }),
    decreases plans.len() + 1 - i,
{
    reveal_with_fuel(fold_plans, 3);
    if i == plans.len() {
        assert(plans.push(p)[i] == p);
    } else {
        assert(plans.push(p)[i] == plans[i]);
        let sc_i = plan_score(s, plans[i], steps, dist);
        if sc_i > bs {
            lemma_fold_plans_push(s, plans, p, steps, dist, i + 1, sc_i, plans[i][0]);
        } else {
            lemma_fold_plans_push(s, plans, p, steps, dist, i + 1, bs, bd);
        }
    }
}

/// Roll `plan` forward on a snapshot of `state`, holding each direction for
/// `steps` ticks, abandoning the rest of the plan once the score reaches the
/// sentinel, and return the resulting score. This is one search iteration's
/// whole evaluation; the snapshot keeps rollouts isolated from the real state
/// and from one another.
pub fn eval_plan(state: &State, plan: &Vec<Dir>, steps: usize, dist: u32) -> (sc: i64)
    requires
        on_playfield(state@),
        state@.humans.len() <= 10_000,
        state@.zombies.len() <= 10_000,
        -1_000_000_000_000 <= state@.score <= 1_000_000_000_000,
        plan@.len() <= PLAN_LEN,
        steps <= 5,
        dist <= 1000,
    ensures
        sc as int == plan_score(state@, plan@, steps as int, dist as int),
{
    proof {
        assert forall|i: int| 0 <= i < state@.humans.len() implies coord_within(
            (#[trigger] state@.humans[i]).pos,
            16_000,
        ) by {}
        assert forall|i: int| 0 <= i < state@.zombies.len() implies coord_within(
            (#[trigger] state@.zombies[i]).pos,
            16_000,
        ) by {}
        assert(pos_bounded(state@, 16_000));
    }
    let mut test_state = state.snapshot();
    let ghost mut ticks: int = 0;
    let mut ai: usize = 0;
    while ai < plan.len()
        invariant_except_break
            ticks <= 5 * ai,
            plan_rollout(state@, plan@, 0, steps as int, dist as int) == plan_rollout(
                test_state@,
                plan@,
                ai as int,
                steps as int,
                dist as int,
            ),
        invariant
            plan@.len() <= PLAN_LEN,
            steps <= 5,
            dist <= 1000,
            ai <= plan@.len(),
            0 <= ticks <= 45,
            test_state@.humans.len() <= 10_000,
            test_state@.zombies.len() <= 10_000,
            pos_bounded(test_state@, 16_000 + 1401 * ticks),
            test_state@.humans.len() > 0 ==> -1_000_000_000_000 - 110_000_000 * ticks
                <= test_state@.score <= 1_000_000_000_000 + 110_000_000 * ticks,
        ensures
            plan_rollout(state@, plan@, 0, steps as int, dist as int) == test_state@,
        decreases plan@.len() - ai,
    {
        let action = plan[ai];
        let ghost stage = test_state@;
        let mut st: usize = 0;
        while st < steps
            invariant
                steps <= 5,
                dist <= 1000,
                ai < plan@.len(),
                plan@.len() <= PLAN_LEN,
                st <= steps,
                0 <= ticks <= 5 * ai + st,
                action == plan@[ai as int],
                test_state@ == rollout(stage, action, st as int, dist as int),
                test_state@.humans.len() <= 10_000,
                test_state@.zombies.len() <= 10_000,
                pos_bounded(test_state@, 16_000 + 1401 * ticks),
                test_state@.humans.len() > 0 ==> -1_000_000_000_000 - 110_000_000 * ticks
                    <= test_state@.score <= 1_000_000_000_000 + 110_000_000 * ticks,
            decreases steps - st,
        {
            proof {
                assert(ticks <= 40);
                assert forall|i: int| 0 <= i < test_state@.humans.len() implies coord_within(
                    (#[trigger] test_state@.humans[i]).pos,
                    98_000_000,
                ) by {}
                assert forall|i: int| 0 <= i < test_state@.zombies.len() implies coord_within(
                    (#[trigger] test_state@.zombies[i]).pos,
                    98_000_000,
                ) by {}
                assert(pos_bounded(test_state@, 98_000_000));
            }
            let ghost pre = test_state@;
            test_state.next(action, dist);
            proof {
                lemma_next_spec_bounds(pre, action, dist as int, 16_000 + 1401 * ticks);
                lemma_next_spec_lens(pre, action, dist as int);
                lemma_next_spec_score(pre, action, dist as int);
                ticks = ticks + 1;
                assert forall|i: int| 0 <= i < test_state@.humans.len() implies coord_within(
                    (#[trigger] test_state@.humans[i]).pos,
                    16_000 + 1401 * ticks,
                ) by {}
                assert forall|i: int| 0 <= i < test_state@.zombies.len() implies coord_within(
                    (#[trigger] test_state@.zombies[i]).pos,
                    16_000 + 1401 * ticks,
                ) by {}
            }
            st = st + 1;
        }
        proof {
            assert(test_state@ == rollout(stage, plan@[ai as int], steps as int, dist as int));
        }
        if test_state.score == i64::MIN {
            proof {
                assert(plan_rollout(stage, plan@, ai as int, steps as int, dist as int)
                    == test_state@);
            }
            break ;
        }
        proof {
            assert(plan_rollout(stage, plan@, ai as int, steps as int, dist as int)
                == plan_rollout(test_state@, plan@, ai + 1, steps as int, dist as int));
        }
        ai = ai + 1;
    }
    test_state.score
}

/// The turn's decision: sample direction plans until the deadline, evaluate
/// each full rollout on a snapshot of `state`, keep the head of the earliest
/// best-scoring plan, and return the agent's position advanced by that
/// direction and clamped onto the playfield. The output is the clamped
/// one-step move along `best_head` of the drawn plans — which plans are drawn
/// is up to the random source and the clock; what is emitted for them is not.
pub fn find_solution(state: State, action_gen: &mut ActionGen) -> (out: Point)
    requires
        on_playfield(state@),
        state@.humans.len() <= 10_000,
        state@.zombies.len() <= 10_000,
        -1_000_000_000_000 <= state@.score <= 1_000_000_000_000,
    ensures
        0 <= out.x <= MAX_X,
        0 <= out.y <= MAX_Y,
        exists|plans: Seq<Seq<Dir>>|
            #![trigger best_head(state@, plans, search_steps(state@), search_step_dist(state@))]
            {
                &&& forall|i: int|
                    0 <= i < plans.len() ==> (#[trigger] plans[i]).len() == PLAN_LEN as int
                &&& out == clamped_output(
                    state@.player.pos,
                    best_head(state@, plans, search_steps(state@), search_step_dist(state@)),
                    search_step_dist(state@),
                )
            },
{
    proof {
        assert forall|i: int| 0 <= i < state@.humans.len() implies (
        #[trigger] state@.humans[i]).pos.in_bounds() by {}
        assert forall|i: int| 0 <= i < state@.zombies.len() implies (
        #[trigger] state@.zombies[i]).pos.in_bounds() by {}
    }
    let min_h = min_human_range(&state.humans, state.player.pos);
    let min_z = min_zombie_range(&state.zombies, state.player.pos);
    let steps: usize = if min_h > 5000 || min_z > 5000 {
        5
    } else {
        1
    };
    let player_dist: u32 = if min_h > 1000 {
        1000
    } else {
        500
    };
    proof {
        assert(steps as int == search_steps(state@));
        assert(player_dist as int == search_step_dist(state@));
    }
    let start = instant_now();
    let mut best_score: i64 = i64::MIN;
    let mut best_action: Dir = Dir::Stay;
    let ghost mut plans: Seq<Seq<Dir>> = Seq::empty();
    // The guard only gives the loop a decreasing measure; the wall-clock
    // deadline fires long before it could run out.
    let mut guard: u64 = 0;
    while guard < 1_000_000_000_000_000 && !deadline_reached(&start)
        invariant
            on_playfield(state@),
            state@.humans.len() <= 10_000,
            state@.zombies.len() <= 10_000,
            -1_000_000_000_000 <= state@.score <= 1_000_000_000_000,
            steps == 1 || steps == 5,
            player_dist == 500 || player_dist == 1000,
            forall|i: int| 0 <= i < plans.len() ==> (#[trigger] plans[i]).len() == PLAN_LEN as int,
            fold_plans(
                state@,
                plans,
                steps as int,
                player_dist as int,
                0,
                i64::MIN as int,
                Dir::Stay,
            ) == (best_score as int, best_action),
        decreases 1_000_000_000_000_000u64 - guard,
    {
        guard = guard + 1;
        action_gen.gen();
        let sc = eval_plan(&state, &action_gen.actions, steps, player_dist);
        proof {
            lemma_fold_plans_push(
                state@,
                plans,
                action_gen.actions@,
                steps as int,
                player_dist as int,
                0,
                i64::MIN as int,
                Dir::Stay,
            );
            plans = plans.push(action_gen.actions@);
        }
        if sc > best_score {
            best_score = sc;
            best_action = action_gen.actions[0];
        }
    }
    let mut output = state.player.pos;
    output.move_to_dir(best_action, player_dist);
    let ox: i32 = if output.x < 0 {
        0
    } else if output.x > MAX_X {
        MAX_X
    } else {
        output.x
    };
    let oy: i32 = if output.y < 0 {
        0
    } else if output.y > MAX_Y {
        MAX_Y
    } else {
        output.y
    };
    let out = Point { x: ox, y: oy };
    proof {
        assert(best_head(state@, plans, steps as int, player_dist as int) == best_action);
        assert(out == clamped_output(
            state@.player.pos,
            best_head(state@, plans, search_steps(state@), search_step_dist(state@)),
            search_step_dist(state@),
        ));
    }
    out
}

} // verus!
