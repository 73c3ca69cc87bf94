//! The world model: the agent (player), the humans to protect, the zombies
//! hunting them, the running score, and the one-tick transition rule.
//!
//! A tick runs in a fixed order: every zombie picks the closest human or the
//! agent as its target (over pre-tick positions), every zombie moves up to
//! 400 units toward that target, the agent moves along the chosen direction,
//! zombies within the kill radius of the agent are removed, humans sharing a
//! surviving zombie's position are removed, and the score is updated. Once no
//! human remains the score is pinned to the minimum sentinel.
use vstd::prelude::*;
use crate::geometry::{Point, Dir, dist2, STEP_LIMIT, COORD_LIMIT, lemma_stepped_coord_drift};

verus! {

/// How far a zombie advances toward its target each tick.
pub const ZOMBIE_STEP: u32 = 400;

/// A zombie survives the agent only strictly beyond this squared distance:
/// at exactly this squared distance (exact distance 2000) it is removed.
pub const KILL_DIST2: i64 = 4_000_000;

/// A human to protect: an identifier and a position. Humans do not move.
#[derive(Copy, Clone, PartialEq, Eq, Structural, Debug)]
pub struct Human {
    pub id: i32,
    pub pos: Point,
}

/// A zombie: identifier, position, and the point it currently hunts.
#[derive(Copy, Clone, PartialEq, Eq, Structural, Debug)]
pub struct Zombie {
    pub id: i32,
    pub pos: Point,
    pub target: Point,
}

/// The per-turn state: agent, remaining humans, remaining zombies, score.
pub struct State {
    pub player: Human,
    pub humans: Vec<Human>,
    pub zombies: Vec<Zombie>,
    pub score: i64,
}

/// The mathematical model of a `State`: sequences instead of vectors, an
/// unbounded integer for the score.
pub ghost struct WorldModel {
    pub player: Human,
    pub humans: Seq<Human>,
    pub zombies: Seq<Zombie>,
    pub score: int,
}

impl View for State {
    type V = WorldModel;

    open spec fn view(&self) -> WorldModel {
        WorldModel {
            player: self.player,
            humans: self.humans@,
            zombies: self.zombies@,
            score: self.score as int,
        }
    }
}

/// Candidate `i` of a zombie's target choice: the humans in order, then the
/// agent as the final candidate `humans.len()`.
pub open spec fn cand_pos(humans: Seq<Human>, player: Human, i: int) -> Point
    recommends
        0 <= i <= humans.len(),
{
    if i < humans.len() {
        humans[i].pos
    } else {
        player.pos
    }
}

/// Integer distance from candidate `i` to the zombie at `zpos`.
pub open spec fn cand_range(zpos: Point, humans: Seq<Human>, player: Human, i: int) -> int {
    cand_pos(humans, player, i).range_spec(zpos)
}

/// Walks the candidates from `i` on, keeping `best`; a later candidate
/// replaces the held one only when strictly closer, so the first minimum
/// encountered wins.
pub open spec fn pick_from(
    zpos: Point,
    humans: Seq<Human>,
    player: Human,
    i: int,
    best: int,
) -> int
    recommends
        1 <= i,
        0 <= best,
    decreases humans.len() + 1 - i,
{
    if i > humans.len() {
        best
    } else if cand_range(zpos, humans, player, i) < cand_range(zpos, humans, player, best) {
        pick_from(zpos, humans, player, i + 1, i)
    } else {
        pick_from(zpos, humans, player, i + 1, best)
    }
}

/// The index of the candidate a zombie at `zpos` chases: the first candidate
/// (humans in order, then the agent) at minimal integer distance.
pub open spec fn target_choice(zpos: Point, humans: Seq<Human>, player: Human) -> int {
    pick_from(zpos, humans, player, 1, 0)
}

/// The position a zombie at `zpos` chases.
pub open spec fn closest_target_spec(zpos: Point, humans: Seq<Human>, player: Human) -> Point {
    cand_pos(humans, player, target_choice(zpos, humans, player))
}

proof fn lemma_pick_from(zpos: Point, humans: Seq<Human>, player: Human, i: int, best: int)
    requires
        1 <= i <= humans.len() + 1,
        0 <= best < i,
        forall|m: int|
            0 <= m < i ==> #[trigger] cand_range(zpos, humans, player, m) >= cand_range(
                zpos,
                humans,
                player,
                best,
            ),
        forall|m: int|
            0 <= m < best ==> #[trigger] cand_range(zpos, humans, player, m) > cand_range(
                zpos,
                humans,
                player,
                best,
            ),
    ensures
        ({
            let k = pick_from(zpos, humans, player, i, best);
            &&& 0 <= k <= humans.len()
            &&& forall|m: int|
                0 <= m <= humans.len() ==> #[trigger] cand_range(zpos, humans, player, m)
                    >= cand_range(zpos, humans, player, k)
            &&& forall|m: int|
                0 <= m < k ==> #[trigger] cand_range(zpos, humans, player, m) > cand_range(
                    zpos,
                    humans,
                    player,
                    k,
                )
        }),
    decreases humans.len() + 1 - i,
{
    if i > humans.len() {
    } else if cand_range(zpos, humans, player, i) < cand_range(zpos, humans, player, best) {
        lemma_pick_from(zpos, humans, player, i + 1, i);
    } else {
        lemma_pick_from(zpos, humans, player, i + 1, best);
    }
}

/// The chosen target is a closest candidate, and every candidate before it
/// is strictly farther: ties go to the earlier candidate, humans before the
/// agent.
pub proof fn lemma_target_choice(zpos: Point, humans: Seq<Human>, player: Human)
    ensures
        ({
            let k = target_choice(zpos, humans, player);
            &&& 0 <= k <= humans.len()
            &&& forall|m: int|
                0 <= m <= humans.len() ==> #[trigger] cand_range(zpos, humans, player, m)
                    >= cand_range(zpos, humans, player, k)
            &&& forall|m: int|
                0 <= m < k ==> #[trigger] cand_range(zpos, humans, player, m) > cand_range(
                    zpos,
                    humans,
                    player,
                    k,
                )
        }),
{
    lemma_pick_from(zpos, humans, player, 1, 0);
}

/// Of two humans at the same minimal integer distance from a zombie, the one
/// earlier in iteration order becomes the target.
pub proof fn lemma_target_tiebreak(
    zpos: Point,
    humans: Seq<Human>,
    player: Human,
    i: int,
    j: int,
)
    requires
        0 <= i < j < humans.len(),
        cand_range(zpos, humans, player, i) == cand_range(zpos, humans, player, j),
        forall|m: int|
            0 <= m <= humans.len() ==> #[trigger] cand_range(zpos, humans, player, m)
                >= cand_range(zpos, humans, player, i),
        forall|m: int|
            0 <= m < i ==> #[trigger] cand_range(zpos, humans, player, m) > cand_range(
                zpos,
                humans,
                player,
                i,
            ),
    ensures
        closest_target_spec(zpos, humans, player) == humans[i].pos,
{
    lemma_target_choice(zpos, humans, player);
    let k = target_choice(zpos, humans, player);
    if k < i {
        assert(cand_range(zpos, humans, player, k) > cand_range(zpos, humans, player, i));
    }
    if k > i {
        assert(cand_range(zpos, humans, player, i) > cand_range(zpos, humans, player, k));
    }
}

impl Zombie {
    /// Pick the closest human — or, failing all humans, the agent — by
    /// integer distance, first minimum winning, and record its current
    /// position as this zombie's target.
    pub fn choose_target(&mut self, humans: &Vec<Human>, player: &Human)
        requires
            old(self).pos.in_bounds(),
            player.pos.in_bounds(),
            forall|i: int| 0 <= i < humans@.len() ==> (#[trigger] humans@[i]).pos.in_bounds(),
            humans@.len() < 1_000_000_000,
        ensures
            final(self).id == old(self).id,
            final(self).pos == old(self).pos,
            final(self).target == closest_target_spec(old(self).pos, humans@, *player),
            final(self).target.in_bounds(),
    {
        let zpos = self.pos;
        let n = humans.len();
        let mut best: usize = 0;
        let mut best_d: i32 = if n > 0 {
            humans[0].pos.range(&zpos)
        } else {
            player.pos.range(&zpos)
        };
        let mut i: usize = 1;
        while i <= n
            invariant
                n == humans@.len(),
                zpos == old(self).pos,
                zpos.in_bounds(),
                player.pos.in_bounds(),
                forall|m: int| 0 <= m < humans@.len() ==> (#[trigger] humans@[m]).pos.in_bounds(),
                n < 1_000_000_000,
                1 <= i <= n + 1,
                best < i,
                best <= n,
                best_d as int == cand_range(zpos, humans@, *player, best as int),
                pick_from(zpos, humans@, *player, 1, 0) == pick_from(
                    zpos,
                    humans@,
                    *player,
                    i as int,
                    best as int,
                ),
            decreases n + 1 - i,
        {
            let d: i32 = if i < n {
                humans[i].pos.range(&zpos)
            } else {
                player.pos.range(&zpos)
            };
            assert(d as int == cand_range(zpos, humans@, *player, i as int));
            if d < best_d {
                best = i;
                best_d = d;
            }
            i = i + 1;
        }
        self.target = if best < n {
            humans[best].pos
        } else {
            player.pos
        };
    }
}

/// Both coordinates of `p` at most `b` away from the origin.
pub open spec fn coord_within(p: Point, b: int) -> bool {
    -b <= p.x <= b && -b <= p.y <= b
}

/// Every position of the state (agent, humans, zombies) within `b`.
pub open spec fn pos_bounded(s: WorldModel, b: int) -> bool {
    &&& coord_within(s.player.pos, b)
    &&& forall|i: int| 0 <= i < s.humans.len() ==> coord_within((#[trigger] s.humans[i]).pos, b)
    &&& forall|i: int| 0 <= i < s.zombies.len() ==> coord_within((#[trigger] s.zombies[i]).pos, b)
}

/// The zombies of `s`, each with its target recomputed from the pre-tick
/// positions of the humans and the agent.
pub open spec fn with_targets(s: WorldModel) -> Seq<Zombie> {
    Seq::new(
        s.zombies.len(),
        |i: int|
            Zombie {
                id: s.zombies[i].id,
                pos: s.zombies[i].pos,
                target: closest_target_spec(s.zombies[i].pos, s.humans, s.player),
            },
    )
}

/// The zombies of `s` after retargeting and moving up to 400 units.
pub open spec fn moved_zombies(s: WorldModel) -> Seq<Zombie> {
    Seq::new(
        s.zombies.len(),
        |i: int|
            Zombie {
                id: with_targets(s)[i].id,
                pos: Point::move_to_spec(
                    with_targets(s)[i].pos,
                    with_targets(s)[i].target,
                    ZOMBIE_STEP as int,
                ),
                target: with_targets(s)[i].target,
            },
    )
}

/// The agent after moving `dist` units along `dir`.
pub open spec fn moved_player(s: WorldModel, dir: Dir, dist: int) -> Human {
    Human { id: s.player.id, pos: Point::move_dir_spec(s.player.pos, dir, dist) }
}

/// Whether a zombie survives the agent at `ppos`: strictly farther than the
/// kill radius; at exactly the kill radius it does not survive.
pub open spec fn keep_zombie(z: Zombie, ppos: Point) -> bool {
    dist2(z.pos, ppos) > KILL_DIST2 as int
}

/// The zombies of `zs` that survive the agent at `ppos`, in order.
pub open spec fn drop_killed(zs: Seq<Zombie>, ppos: Point) -> Seq<Zombie>
    decreases zs.len(),
{
    if zs.len() == 0 {
        zs
    } else {
        let rest = drop_killed(zs.drop_last(), ppos);
        if keep_zombie(zs.last(), ppos) {
            rest.push(zs.last())
        } else {
            rest
        }
    }
}

/// Some zombie of `zs` stands exactly on `p`.
pub open spec fn zombie_at(zs: Seq<Zombie>, p: Point) -> bool {
    exists|i: int| 0 <= i < zs.len() && zs[i].pos == p
}

/// The humans of `hs` not caught: no zombie of `zs` on their exact position.
pub open spec fn drop_caught(hs: Seq<Human>, zs: Seq<Zombie>) -> Seq<Human>
    decreases hs.len(),
{
    if hs.len() == 0 {
        hs
    } else {
        let rest = drop_caught(hs.drop_last(), zs);
        if !zombie_at(zs, hs.last().pos) {
            rest.push(hs.last())
        } else {
            rest
        }
    }
}

/// The zombies left after one tick of `s`: retargeted, moved, and thinned by
/// the agent's kill radius.
pub open spec fn surviving_zombies(s: WorldModel, dir: Dir, dist: int) -> Seq<Zombie> {
    drop_killed(moved_zombies(s), moved_player(s, dir, dist).pos)
}

/// The humans left after one tick of `s`.
pub open spec fn surviving_humans(s: WorldModel, dir: Dir, dist: int) -> Seq<Human> {
    drop_caught(s.humans, surviving_zombies(s, dir, dist))
}

/// The one-tick transition: targets, zombie moves, the agent's move, kills,
/// catches, then the score. With no humans left the score is pinned to the
/// minimum sentinel; otherwise the tick adds the square of the zombies killed
/// and subtracts 1000 per human lost.
pub open spec fn next_spec(s: WorldModel, dir: Dir, dist: int) -> WorldModel {
    let humans2 = surviving_humans(s, dir, dist);
    let zombies2 = surviving_zombies(s, dir, dist);
    let score2 = if humans2.len() == 0 {
        i64::MIN as int
    } else {
        s.score + (s.zombies.len() - zombies2.len()) * (s.zombies.len() - zombies2.len()) - 1000
            * (s.humans.len() - humans2.len())
    };
    WorldModel {
        player: moved_player(s, dir, dist),
        humans: humans2,
        zombies: zombies2,
        score: score2,
    }
}

proof fn lemma_drop_killed_push(zs: Seq<Zombie>, ppos: Point, z: Zombie)
    ensures
        drop_killed(zs.push(z), ppos) == if keep_zombie(z, ppos) {
            drop_killed(zs, ppos).push(z)
        } else {
            drop_killed(zs, ppos)
        },
{
    assert(zs.push(z).drop_last() =~= zs);
    assert(zs.push(z).last() == z);
}

/// Surviving zombies are never more numerous than the zombies they came from.
pub proof fn lemma_drop_killed_len(zs: Seq<Zombie>, ppos: Point)
    ensures
        drop_killed(zs, ppos).len() <= zs.len(),
    decreases zs.len(),
{
    if zs.len() > 0 {
        lemma_drop_killed_len(zs.drop_last(), ppos);
    }
}

/// A zombie stands among the survivors exactly when it was there before the
/// cull and is strictly outside the kill radius.
pub proof fn lemma_drop_killed_contains(zs: Seq<Zombie>, ppos: Point, z: Zombie)
    ensures
        drop_killed(zs, ppos).contains(z) <==> (zs.contains(z) && keep_zombie(z, ppos)),
    decreases zs.len(),
{
    if zs.len() > 0 {
        lemma_drop_killed_contains(zs.drop_last(), ppos, z);
        let rest = drop_killed(zs.drop_last(), ppos);
        if zs.contains(z) && keep_zombie(z, ppos) {
            let i = choose|i: int| 0 <= i < zs.len() && zs[i] == z;
            if i < zs.len() - 1 {
                assert(zs.drop_last()[i] == z);
                assert(zs.drop_last().contains(z));
                let j = choose|j: int| 0 <= j < rest.len() && rest[j] == z;
                if keep_zombie(zs.last(), ppos) {
                    assert(rest.push(zs.last())[j] == z);
                }
                assert(drop_killed(zs, ppos).contains(z));
            } else {
                assert(zs.last() == z);
                assert(rest.push(z)[rest.len() as int] == z);
                assert(drop_killed(zs, ppos).contains(z));
            }
        }
        if drop_killed(zs, ppos).contains(z) {
            if keep_zombie(zs.last(), ppos) {
                let j = choose|j: int| 0 <= j < rest.push(zs.last()).len() && rest.push(
                    zs.last(),
                )[j] == z;
                if j < rest.len() {
                    assert(rest[j] == z);
                    assert(rest.contains(z));
                    let i = choose|i: int| 0 <= i < zs.drop_last().len() && zs.drop_last()[i]
                        == z;
                    assert(zs[i] == z);
                    assert(zs.contains(z));
                } else {
                    assert(z == zs.last());
                    assert(zs[zs.len() - 1] == z);
                    assert(zs.contains(z));
                }
            } else {
                assert(rest.contains(z));
                let i = choose|i: int| 0 <= i < zs.drop_last().len() && zs.drop_last()[i] == z;
                assert(zs[i] == z);
                assert(zs.contains(z));
            }
        }
    }
}

proof fn lemma_drop_caught_push(hs: Seq<Human>, zs: Seq<Zombie>, h: Human)
    ensures
        drop_caught(hs.push(h), zs) == if !zombie_at(zs, h.pos) {
            drop_caught(hs, zs).push(h)
        } else {
            drop_caught(hs, zs)
        },
{
    assert(hs.push(h).drop_last() =~= hs);
    assert(hs.push(h).last() == h);
}

/// Surviving humans are never more numerous than the humans they came from.
pub proof fn lemma_drop_caught_len(hs: Seq<Human>, zs: Seq<Zombie>)
    ensures
        drop_caught(hs, zs).len() <= hs.len(),
    decreases hs.len(),
{
    if hs.len() > 0 {
        lemma_drop_caught_len(hs.drop_last(), zs);
    }
}

/// A human survives exactly when it was there before and no surviving zombie
/// stands on its position.
pub proof fn lemma_drop_caught_contains(hs: Seq<Human>, zs: Seq<Zombie>, h: Human)
    ensures
        drop_caught(hs, zs).contains(h) <==> (hs.contains(h) && !zombie_at(zs, h.pos)),
    decreases hs.len(),
{
    if hs.len() > 0 {
        lemma_drop_caught_contains(hs.drop_last(), zs, h);
        let rest = drop_caught(hs.drop_last(), zs);
        if hs.contains(h) && !zombie_at(zs, h.pos) {
            let i = choose|i: int| 0 <= i < hs.len() && hs[i] == h;
            if i < hs.len() - 1 {
                assert(hs.drop_last()[i] == h);
                assert(hs.drop_last().contains(h));
                let j = choose|j: int| 0 <= j < rest.len() && rest[j] == h;
                if !zombie_at(zs, hs.last().pos) {
                    assert(rest.push(hs.last())[j] == h);
                }
                assert(drop_caught(hs, zs).contains(h));
            } else {
                assert(hs.last() == h);
                assert(rest.push(h)[rest.len() as int] == h);
                assert(drop_caught(hs, zs).contains(h));
            }
        }
        if drop_caught(hs, zs).contains(h) {
            if !zombie_at(zs, hs.last().pos) {
                let j = choose|j: int| 0 <= j < rest.push(hs.last()).len() && rest.push(
                    hs.last(),
                )[j] == h;
                if j < rest.len() {
                    assert(rest[j] == h);
                    assert(rest.contains(h));
                    let i = choose|i: int| 0 <= i < hs.drop_last().len() && hs.drop_last()[i]
                        == h;
                    assert(hs[i] == h);
                    assert(hs.contains(h));
                } else {
                    assert(h == hs.last());
                    assert(hs[hs.len() - 1] == h);
                    assert(hs.contains(h));
                }
            } else {
                assert(rest.contains(h));
                let i = choose|i: int| 0 <= i < hs.drop_last().len() && hs.drop_last()[i] == h;
                assert(hs[i] == h);
                assert(hs.contains(h));
            }
        }
    }
}

/// One tick is deterministic: the outcome is a function of the state, the
/// chosen direction and the step distance alone (`State::next` returns
/// exactly `next_spec` of its inputs), so repeated ticks from equal states
/// along equal directions agree bit for bit. All randomness lives in the
/// search's direction choices, none in the model.
pub proof fn lemma_tick_deterministic(s1: WorldModel, s2: WorldModel, dir: Dir, dist: int)
    requires
        s1 == s2,
    ensures
        next_spec(s1, dir, dist) == next_spec(s2, dir, dist),
{
}

/// Once the humans are gone they stay gone and the score stays pinned to the
/// minimum sentinel, whatever the tick does to the zombies.
pub proof fn lemma_score_floor(s: WorldModel, dir: Dir, dist: int)
    requires
        s.humans.len() == 0,
    ensures
        next_spec(s, dir, dist).humans.len() == 0,
        next_spec(s, dir, dist).score == i64::MIN as int,
{
}

/// A bounded move toward a bounded target stays within the bound plus the
/// step and the final truncation.
pub proof fn lemma_move_to_spec_drift(p: Point, target: Point, dist: int, b: int)
    requires
        coord_within(p, b),
        coord_within(target, b),
        0 <= dist,
        0 <= b,
        b + dist + 2 < 2_147_483_647,
    ensures
        coord_within(Point::move_to_spec(p, target, dist), b + dist + 1),
{
    let d2 = dist2(p, target);
    let dx = target.x - p.x;
    let dy = target.y - p.y;
    assert(d2 == dx * dx + dy * dy) by (nonlinear_arith)
        requires
            dx == target.x - p.x,
            dy == target.y - p.y,
            d2 == (p.x - target.x) * (p.x - target.x) + (p.y - target.y) * (p.y - target.y),
    ;
    assert(dx * dx >= 0 && dy * dy >= 0) by (nonlinear_arith);
    if d2 <= dist * dist {
    } else {
        assert(dist * dist >= 0) by (nonlinear_arith);
        let tx = dist * dx;
        let ty = dist * dy;
        assert(tx * tx <= dist * dist * d2 && ty * ty <= dist * dist * d2) by (nonlinear_arith)
            requires
                tx == dist * dx,
                ty == dist * dy,
                dx * dx <= d2,
                dy * dy <= d2,
                0 <= dist,
                d2 == dx * dx + dy * dy,
        ;
        lemma_stepped_coord_drift(p.x as int, tx, d2, dist);
        lemma_stepped_coord_drift(p.y as int, ty, d2, dist);
    }
}

/// A bounded agent move stays within the bound plus the step distance and
/// the final truncation.
pub proof fn lemma_move_dir_spec_drift(p: Point, d: Dir, dist: int, b: int)
    requires
        coord_within(p, b),
        0 <= dist,
        0 <= b,
        b + dist + 2 < 2_147_483_647,
    ensures
        coord_within(Point::move_dir_spec(p, d, dist), b + dist + 1),
{
    if crate::geometry::dir_diag(d) {
        let sx = crate::geometry::dir_sx(d);
        let sy = crate::geometry::dir_sy(d);
        assert((sx * dist) * (sx * dist) <= dist * dist * 2 && (sy * dist) * (sy * dist) <= dist
            * dist * 2) by (nonlinear_arith)
            requires
                (sx == 1 || sx == -1) && (sy == 1 || sy == -1),
                0 <= dist,
        ;
        lemma_stepped_coord_drift(p.x as int, sx * dist, 2, dist);
        lemma_stepped_coord_drift(p.y as int, sy * dist, 2, dist);
    }
}

/// After retargeting, every zombie target is a current human or agent
/// position, so it obeys the same coordinate bound.
pub proof fn lemma_with_targets_bounds(s: WorldModel, b: int)
    requires
        pos_bounded(s, b),
    ensures
        forall|i: int|
            0 <= i < with_targets(s).len() ==> coord_within(
                (#[trigger] with_targets(s)[i]).target,
                b,
            ) && coord_within(with_targets(s)[i].pos, b),
{
    assert forall|i: int| 0 <= i < with_targets(s).len() implies coord_within(
        (#[trigger] with_targets(s)[i]).target,
        b,
    ) && coord_within(with_targets(s)[i].pos, b) by {
        lemma_target_choice(s.zombies[i].pos, s.humans, s.player);
    }
}

/// Moved zombies stay within the old bound plus one zombie step.
pub proof fn lemma_moved_zombies_bounds(s: WorldModel, b: int)
    requires
        pos_bounded(s, b),
        0 <= b,
        b + 402 < 2_147_483_647,
    ensures
        forall|i: int|
            0 <= i < moved_zombies(s).len() ==> coord_within(
                (#[trigger] moved_zombies(s)[i]).pos,
                b + 401,
            ),
{
    lemma_with_targets_bounds(s, b);
    assert forall|i: int| 0 <= i < moved_zombies(s).len() implies coord_within(
        (#[trigger] moved_zombies(s)[i]).pos,
        b + 401,
    ) by {
        lemma_move_to_spec_drift(with_targets(s)[i].pos, with_targets(s)[i].target, 400, b);
    }
}

/// One tick keeps every position within the old bound plus the larger of the
/// agent's step and a zombie's step, plus the truncation unit.
pub proof fn lemma_next_spec_bounds(s: WorldModel, dir: Dir, dist: int, b: int)
    requires
        pos_bounded(s, b),
        0 <= dist,
        0 <= b,
        b + dist + 403 < 2_147_483_647,
    ensures
        pos_bounded(next_spec(s, dir, dist), b + dist + 401),
{
    let n = next_spec(s, dir, dist);
    lemma_move_dir_spec_drift(s.player.pos, dir, dist, b);
    lemma_moved_zombies_bounds(s, b);
    let ppos = moved_player(s, dir, dist).pos;
    assert forall|i: int| 0 <= i < n.zombies.len() implies coord_within(
        (#[trigger] n.zombies[i]).pos,
        b + dist + 401,
    ) by {
        assert(n.zombies.contains(n.zombies[i]));
        lemma_drop_killed_contains(moved_zombies(s), ppos, n.zombies[i]);
        let j = choose|j: int|
            0 <= j < moved_zombies(s).len() && moved_zombies(s)[j] == n.zombies[i];
        assert(coord_within(moved_zombies(s)[j].pos, b + 401));
    }
    assert forall|i: int| 0 <= i < n.humans.len() implies coord_within(
        (#[trigger] n.humans[i]).pos,
        b + dist + 401,
    ) by {
        assert(n.humans.contains(n.humans[i]));
        lemma_drop_caught_contains(s.humans, surviving_zombies(s, dir, dist), n.humans[i]);
        let j = choose|j: int| 0 <= j < s.humans.len() && s.humans[j] == n.humans[i];
        assert(coord_within(s.humans[j].pos, b));
    }
}

/// One tick never grows the populations, and the agent keeps its identity.
pub proof fn lemma_next_spec_lens(s: WorldModel, dir: Dir, dist: int)
    ensures
        next_spec(s, dir, dist).humans.len() <= s.humans.len(),
        next_spec(s, dir, dist).zombies.len() <= s.zombies.len(),
        next_spec(s, dir, dist).player.id == s.player.id,
{
    lemma_drop_killed_len(moved_zombies(s), moved_player(s, dir, dist).pos);
    lemma_drop_caught_len(s.humans, surviving_zombies(s, dir, dist));
}

/// One tick either pins the score to the sentinel (all humans gone) or moves
/// it by at most the square of the zombie count down plus 1000 per human.
pub proof fn lemma_next_spec_score(s: WorldModel, dir: Dir, dist: int)
    requires
        s.humans.len() <= 10_000,
        s.zombies.len() <= 10_000,
    ensures
        ({
            let n = next_spec(s, dir, dist);
            ||| (n.humans.len() == 0 && n.score == i64::MIN as int)
            ||| (n.humans.len() > 0 && s.score - 10_000_000 <= n.score <= s.score + 100_000_000)
        }),
{
    let n = next_spec(s, dir, dist);
    lemma_next_spec_lens(s, dir, dist);
    if n.humans.len() > 0 {
        let kills = s.zombies.len() - n.zombies.len();
        let lost = s.humans.len() - n.humans.len();
        assert(0 <= kills * kills <= 100_000_000) by (nonlinear_arith)
            requires
                0 <= kills <= 10_000,
        ;
        assert(0 <= 1000 * lost <= 10_000_000) by (nonlinear_arith)
            requires
                0 <= lost <= 10_000,
        ;
    }
}

/// The kill-radius boundary: a moved zombie survives the tick exactly when
/// its squared distance to the agent's post-move position is strictly greater
/// than the squared kill radius; at exactly the kill radius it is removed.
pub proof fn lemma_kill_radius(s: WorldModel, dir: Dir, dist: int, z: Zombie)
    requires
        moved_zombies(s).contains(z),
    ensures
        surviving_zombies(s, dir, dist).contains(z) <==> dist2(
            z.pos,
            moved_player(s, dir, dist).pos,
        ) > KILL_DIST2 as int,
{
    lemma_drop_killed_contains(moved_zombies(s), moved_player(s, dir, dist).pos, z);
}


/// Whether some zombie of `zs` stands exactly on `p`.
fn has_zombie_at(zs: &Vec<Zombie>, p: Point) -> (b: bool)
    ensures
        b == zombie_at(zs@, p),
{
    let mut i: usize = 0;
    while i < zs.len()
        invariant
            i <= zs@.len(),
            forall|j: int| 0 <= j < i ==> (#[trigger] zs@[j]).pos != p,
        decreases zs@.len() - i,
    {
        if zs[i].pos == p {
            proof {
                assert(zs@[i as int].pos == p);
            }
            return true;
        }
        i = i + 1;
    }
    false
}

/// An element-for-element copy of a vector of plain values.
fn copy_vec<T: Copy>(v: &Vec<T>) -> (r: Vec<T>)
    ensures
        r@ == v@,
{
    let mut r: Vec<T> = Vec::new();
    let mut i: usize = 0;
    while i < v.len()
        invariant
            i <= v@.len(),
            r@.len() == i as int,
            forall|j: int| 0 <= j < i ==> r@[j] == v@[j],
        decreases v@.len() - i,
    {
        r.push(v[i]);
        i = i + 1;
    }
    proof {
        assert(r@ =~= v@);
    }
    r
}

impl State {
    /// An independent deep copy: rollouts work on snapshots, never on the
    /// real state.
    pub fn snapshot(&self) -> (r: State)
        ensures
            r@ == self@,
    {
        State {
            player: self.player,
            humans: copy_vec(&self.humans),
            zombies: copy_vec(&self.zombies),
            score: self.score,
        }
    }

    /// Every zombie recomputes its target from the current positions of the
    /// humans and the agent.
    pub fn zombie_choose_targets(&mut self)
        requires
            pos_bounded(old(self)@, COORD_LIMIT as int),
            old(self).humans@.len() < 1_000_000_000,
        ensures
            final(self).player == old(self).player,
            final(self).humans@ == old(self).humans@,
            final(self).score == old(self).score,
            final(self).zombies@ == with_targets(old(self)@),
    {
        let n = self.zombies.len();
        let mut updated: Vec<Zombie> = Vec::new();
        let mut i: usize = 0;
        while i < n
            invariant
                n == self.zombies@.len(),
                pos_bounded(self@, COORD_LIMIT as int),
                self.humans@.len() < 1_000_000_000,
                i <= n,
                updated@.len() == i as int,
                forall|j: int| 0 <= j < i ==> updated@[j] == with_targets(self@)[j],
            decreases n - i,
        {
            let mut z = self.zombies[i];
            proof {
                assert(z == self@.zombies[i as int]);
                assert(coord_within(z.pos, COORD_LIMIT as int));
                assert forall|m: int| 0 <= m < self.humans@.len() implies (#[trigger] self.humans@[m]).pos.in_bounds() by {
                    assert(coord_within(self@.humans[m].pos, COORD_LIMIT as int));
                }
                assert(z.pos.in_bounds());
                assert(self.player.pos.in_bounds());
            }
            z.choose_target(&self.humans, &self.player);
            updated.push(z);
            i = i + 1;
        }
        self.zombies = updated;
        proof {
            assert(self.zombies@ =~= with_targets(old(self)@));
        }
    }

    /// Advance the world by one tick, in the fixed order: retarget, move
    /// zombies, move the agent, cull zombies in the kill radius, remove
    /// caught humans, update the score.
    pub fn next(&mut self, dir: Dir, player_dist: u32)
        requires
            pos_bounded(old(self)@, 98_000_000),
            old(self).humans@.len() <= 10_000,
            old(self).zombies@.len() <= 10_000,
            player_dist <= STEP_LIMIT,
            old(self).humans@.len() > 0 ==> -1_000_000_000_000_000 <= old(self).score
                <= 1_000_000_000_000_000,
        ensures
            final(self)@ == next_spec(old(self)@, dir, player_dist as int),
    {
        let ghost s0 = old(self)@;
        let zombies_before = self.zombies.len();
        let humans_before = self.humans.len();
        proof {
            assert forall|i: int| 0 <= i < s0.humans.len() implies coord_within(
                (#[trigger] s0.humans[i]).pos,
                COORD_LIMIT as int,
            ) by {}
            assert forall|i: int| 0 <= i < s0.zombies.len() implies coord_within(
                (#[trigger] s0.zombies[i]).pos,
                COORD_LIMIT as int,
            ) by {}
            assert(pos_bounded(s0, COORD_LIMIT as int));
        }
        self.zombie_choose_targets();
        let n = self.zombies.len();
        let mut moved: Vec<Zombie> = Vec::new();
        let mut i: usize = 0;
        while i < n
            invariant
                n == self.zombies@.len(),
                self.zombies@ == with_targets(s0),
                self.humans@ == s0.humans,
                self.player == s0.player,
                self.score as int == s0.score,
                pos_bounded(s0, 98_000_000),
                s0.zombies.len() == n,
                i <= n,
                moved@.len() == i as int,
                forall|j: int| 0 <= j < i ==> moved@[j] == moved_zombies(s0)[j],
            decreases n - i,
        {
            proof {
                lemma_with_targets_bounds(s0, 98_000_000);
            }
            let mut z = self.zombies[i];
            proof {
                assert(z == with_targets(s0)[i as int]);
                assert(coord_within(z.pos, 98_000_000) && coord_within(z.target, 98_000_000));
            }
            z.pos.move_to(&z.target, ZOMBIE_STEP);
            moved.push(z);
            i = i + 1;
        }
        self.zombies = moved;
        proof {
            assert(self.zombies@ =~= moved_zombies(s0));
        }
        self.player.pos.move_to_dir(dir, player_dist);
        proof {
            assert(self.player == moved_player(s0, dir, player_dist as int));
        }
        let p2 = self.player.pos;
        proof {
            lemma_move_dir_spec_drift(s0.player.pos, dir, player_dist as int, 98_000_000);
            assert(coord_within(p2, 99_000_001));
        }
        let mut surv: Vec<Zombie> = Vec::new();
        let mut ki: usize = 0;
        while ki < n
            invariant
                n == self.zombies@.len(),
                self.zombies@ == moved_zombies(s0),
                self.humans@ == s0.humans,
                self.player == moved_player(s0, dir, player_dist as int),
                self.score as int == s0.score,
                p2 == moved_player(s0, dir, player_dist as int).pos,
                coord_within(p2, 99_000_001),
                pos_bounded(s0, 98_000_000),
                s0.zombies.len() == n,
                ki <= n,
                surv@ == drop_killed(moved_zombies(s0).take(ki as int), p2),
            decreases n - ki,
        {
            let z = self.zombies[ki];
            proof {
                lemma_moved_zombies_bounds(s0, 98_000_000);
                assert(coord_within(z.pos, 98_000_401));
            }
            let dx: i64 = z.pos.x as i64 - p2.x as i64;
            let dy: i64 = z.pos.y as i64 - p2.y as i64;
            proof {
                assert(0 <= dx * dx <= 40_000_000_000_000_000 && 0 <= dy * dy
                    <= 40_000_000_000_000_000) by (nonlinear_arith)
                    requires
                        -200_000_000 <= dx <= 200_000_000,
                        -200_000_000 <= dy <= 200_000_000,
                ;
                assert((z.pos.x - p2.x) * (z.pos.x - p2.x) == dx * dx && (z.pos.y - p2.y) * (
                z.pos.y - p2.y) == dy * dy) by (nonlinear_arith)
                    requires
                        dx == z.pos.x - p2.x,
                        dy == z.pos.y - p2.y,
                ;
            }
            let d2: i64 = dx * dx + dy * dy;
            proof {
                assert(d2 == dist2(z.pos, p2));
                assert(moved_zombies(s0).take(ki + 1) =~= moved_zombies(s0).take(
                    ki as int,
                ).push(z));
                lemma_drop_killed_push(moved_zombies(s0).take(ki as int), p2, z);
            }
            if d2 > KILL_DIST2 {
                surv.push(z);
            }
            ki = ki + 1;
        }
        proof {
            assert(moved_zombies(s0).take(n as int) =~= moved_zombies(s0));
            assert(surv@ == surviving_zombies(s0, dir, player_dist as int));
        }
        self.zombies = surv;
        let hn = self.humans.len();
        let mut kept: Vec<Human> = Vec::new();
        let mut hi: usize = 0;
        while hi < hn
            invariant
                hn == self.humans@.len(),
                self.humans@ == s0.humans,
                self.zombies@ == surviving_zombies(s0, dir, player_dist as int),
                self.player == moved_player(s0, dir, player_dist as int),
                self.score as int == s0.score,
                hi <= hn,
                kept@ == drop_caught(s0.humans.take(hi as int), self.zombies@),
            decreases hn - hi,
        {
            let h = self.humans[hi];
            let hit = has_zombie_at(&self.zombies, h.pos);
            proof {
                assert(s0.humans.take(hi + 1) =~= s0.humans.take(hi as int).push(h));
                lemma_drop_caught_push(s0.humans.take(hi as int), self.zombies@, h);
            }
            if !hit {
                kept.push(h);
            }
            hi = hi + 1;
        }
        proof {
            assert(s0.humans.take(hn as int) =~= s0.humans);
        }
        self.humans = kept;
        proof {
            assert(self.humans@ == surviving_humans(s0, dir, player_dist as int));
        }
        if self.humans.len() == 0 {
            self.score = i64::MIN;
        } else {
            proof {
                lemma_drop_killed_len(moved_zombies(s0), p2);
                lemma_drop_caught_len(s0.humans, surviving_zombies(s0, dir, player_dist as int));
                assert(self.zombies@.len() <= zombies_before);
                assert(self.humans@.len() <= humans_before);
            }
            let kills: i64 = (zombies_before - self.zombies.len()) as i64;
            let lost: i64 = (humans_before - self.humans.len()) as i64;
            proof {
                assert(0 <= kills * kills <= 100_000_000) by (nonlinear_arith)
                    requires
                        0 <= kills <= 10_000,
                ;
            }
            self.score = self.score + kills * kills - 1000 * lost;
        }
        proof {
            let nf = next_spec(s0, dir, player_dist as int);
            assert(self.humans@ == nf.humans);
            assert(self.zombies@ == nf.zombies);
            assert(self.player == nf.player);
            assert(self.score as int == nf.score);
        }
    }
}

} // verus!
