//! Scripted baselines: a random agent (the floor of the benchmark) and a
//! greedy one (the serious baseline, also the balancing harness). They act
//! through `Action` only, like any other agent.
use vstd::prelude::*;
use crate::types::{
    Pos, Building, BuildingType, EnemyKind, Action, BOARD_W, BOARD_H, in_board, spec_building_types,
    building_types, spec_building_name, spec_cost, spec_damage, spec_range_sq, spec_min_range_sq,
    spec_splash_sq, spec_hits_air, spec_cooldown, spec_dist_sq, spec_hp_at, hp_at_fits, lemma_board_dist_fits,
    stats_of,
};
use crate::rng::{Rng, xorshift_step, xorshift_output};
use crate::text::{spec_decimal};
use crate::game::{Game, GameView, board_wf, game_wf, is_occupied};
use crate::protocol::Observation;
use crate::types::ErrorCode;
use crate::waves::{spec_wave_composition, spec_effective_damage, effective_damage};
use crate::sim::{wave_hp_fits, ground_path, cells_in_board};
use crate::flight::{flight_path, straight_line, lemma_board_line};
use crate::path::{best_route, is_best_route, is_route, free, step_dir, cell_of, lemma_cell_roundtrip};
use vstd::set_lib::{set_int_range, lemma_int_range, lemma_len_subset};

verus! {

/// A draw of `[0, n)` from generator state `st`: the value and the next state.
pub open spec fn draw(st: u64, n: u64) -> (u64, u64) {
    if n == 0 {
        (0, st)
    } else {
        (xorshift_output(xorshift_step(st)) % n, xorshift_step(st))
    }
}

/// An agent of the benchmark: it sees the game and its observation, and acts
/// through `Action` only, like any client of the contract.
pub trait Agent: Sized {
    /// Whether the agent can act on game `g` (its computations fit).
    open spec fn can_act(&self, g: GameView) -> bool {
        true
    }

    /// Whether `n` may be the agent's name; any name for an agent that says
    /// nothing of it.
    open spec fn named(&self, n: Seq<char>) -> bool {
        true
    }

    fn name(&self) -> (s: &str)
        ensures
            self.named(s@),
    ;

    /// Whether `act` can run on this game.
    fn ready(&self, g: &Game) -> (r: bool)
        requires
            game_wf(g@),
        ensures
            r == self.can_act(g@),
    ;

    /// Whether the agent, as it stands, may answer game `g`, shown as `obs`,
    /// after `last_error`, with action `a`, and become `after`. Any answer
    /// for an agent that says nothing of its choices.
    open spec fn chooses(&self, g: GameView, obs: Observation, last_error: Option<ErrorCode>, a: Action, after: Self) -> bool {
        true
    }

    /// The next action; `last_error` is the answer to the previous action of
    /// the same round, when it was refused.
    fn act(&mut self, g: &Game, obs: &Observation, last_error: Option<ErrorCode>) -> (a: Action)
        requires
            game_wf(g@),
            old(self).can_act(g@),
        ensures
            old(self).chooses(g@, *obs, last_error, a, *final(self)),
    ;

    /// Tokens spent (language-model agents); an agent that asks no language
    /// model keeps this default, which reports none.
    fn tokens(&self) -> (n: u64)
        default_ensures
            n == 0,
    {
        0
    }

    /// Unusable answers (language-model agents); an agent that asks no
    /// language model keeps this default, which reports none.
    fn parse_failures(&self) -> (n: u32)
        default_ensures
            n == 0,
    {
        0
    }
}

// ------------------------------------------------------------ random

/// The floor of the benchmark: actions drawn at random, legal or not.
pub struct Random {
    rng: Rng,
    name: String,
}

/// A random cell, `x` drawn first: the cell and the next state.
pub open spec fn random_cell(st: u64) -> (Pos, u64) {
    let (x, s1) = draw(st, BOARD_W as u64);
    let (y, s2) = draw(s1, BOARD_H as u64);
    (Pos { x: x as i32, y: y as i32 }, s2)
}

/// A random building id among those of `bs` (1 when there is none).
pub open spec fn random_id(st: u64, bs: Seq<Building>) -> (u32, u64) {
    let (i, s1) = draw(st, bs.len() as u64);
    (if (i as int) < bs.len() {
        bs[i as int].id
    } else {
        1u32
    }, s1)
}

/// The action the random agent draws from state `st`, and the next state:
/// one time in ten it ends the turn, one in ten it sells, one in ten it
/// moves, otherwise it builds a random type on a random cell.
pub open spec fn random_act(st: u64, bs: Seq<Building>) -> (Action, u64) {
    let (roll, s1) = draw(st, 10);
    if roll == 0 {
        (Action::EndTurn, s1)
    } else if roll == 1 {
        let (id, s2) = random_id(s1, bs);
        (Action::Sell { id }, s2)
    } else if roll == 2 {
        let (id, s2) = random_id(s1, bs);
        let (pos, s3) = random_cell(s2);
        (Action::Move { id, pos }, s3)
    } else {
        let (k, s2) = draw(s1, 5);
        let (pos, s3) = random_cell(s2);
        (Action::Build { kind: spec_building_types()[k as int], pos }, s3)
    }
}

impl Random {
    pub fn new(seed: u64) -> (r: Self)
        ensures
            r.state() == crate::rng::seeded_state(seed),
            r.name_view() == "random"@,
    {
        Random { rng: Rng::new(seed), name: String::from_str("random") }
    }

    /// The state of the agent's generator.
    pub closed spec fn state(&self) -> u64 {
        self.rng.state()
    }

    pub closed spec fn name_view(&self) -> Seq<char> {
        self.name@
    }

    fn cell(&mut self) -> (p: Pos)
        ensures
            (p, final(self).state()) == random_cell(old(self).state()),
            final(self).name_view() == old(self).name_view(),
    {
        let x = self.rng.below(BOARD_W as u64);
        let y = self.rng.below(BOARD_H as u64);
        Pos::new(x as i32, y as i32)
    }

    fn pick_id(&mut self, g: &Game) -> (id: u32)
        ensures
            (id, final(self).state()) == random_id(old(self).state(), g.buildings@),
            final(self).name_view() == old(self).name_view(),
    {
        let n = g.buildings.len();
        let i = self.rng.below(n as u64);
        if i < n as u64 {
            g.buildings[i as usize].id
        } else {
            1
        }
    }

}

impl Agent for Random {
    fn name(&self) -> (s: &str)
        ensures
            s@ == self.name_view(),
    {
        self.name.as_str()
    }

    closed spec fn named(&self, n: Seq<char>) -> bool {
        n == self.name_view()
    }

    /// The random agent draws its action from its generator alone.
    closed spec fn chooses(&self, g: GameView, obs: Observation, last_error: Option<ErrorCode>, a: Action, after: Self) -> bool {
        &&& (a, after.state()) == random_act(self.state(), g.buildings)
        &&& after.name_view() == self.name_view()
    }

    fn ready(&self, g: &Game) -> (r: bool) {
        true
    }

    /// Draws an action, legal or not.
    fn act(&mut self, g: &Game, obs: &Observation, last_error: Option<ErrorCode>) -> (a: Action)
        ensures
            (a, final(self).state()) == random_act(old(self).state(), g.buildings@),
            final(self).name_view() == old(self).name_view(),
    {
        let kinds = building_types();
        match self.rng.below(10) {
            0 => Action::EndTurn,
            1 => Action::Sell { id: self.pick_id(g) },
            2 => {
                let id = self.pick_id(g);
                Action::Move { id, pos: self.cell() }
            },
            _ => {
                let k = self.rng.below(kinds.len() as u64);
                Action::Build { kind: kinds[k as usize], pos: self.cell() }
            },
        }
    }
}

// ------------------------------------------------------------ greedy

/// A cell the greedy heuristic may build on: free, neither entry nor exit,
/// and off the path (building on the path lengthens it but moves the
/// defence, which the heuristic does not weigh).
pub open spec fn heuristic_free(g: GameView, path: Seq<Pos>, p: Pos) -> bool {
    &&& !is_occupied(g.buildings, p)
    &&& p != g.entry
    &&& p != g.exit
    &&& !path.contains(p)
}

/// Cell number `c` of the board, row by row.
pub open spec fn board_cell(c: int) -> Pos {
    Pos { x: (c % 10) as i32, y: (c / 10) as i32 }
}

/// How many of the first `n` cells of `p` a turret `k` on `pos` reaches.
pub open spec fn cover(k: BuildingType, pos: Pos, p: Seq<Pos>, n: int) -> int
    decreases n,
{
    if n <= 0 {
        0
    } else {
        cover(k, pos, p, n - 1) + if spec_min_range_sq(k) <= spec_dist_sq(pos, p[n - 1]) <= spec_range_sq(k) {
            1int
        } else {
            0int
        }
    }
}

/// The hit points the announced wave brings, for enemy kind number `i`.
pub open spec fn hp_share(g: GameView, i: int) -> int {
    spec_wave_composition(g.seed, g.wave)[i] * spec_hp_at(
        if i == 0 {
            EnemyKind::Infantry
        } else if i == 1 {
            EnemyKind::Armor
        } else {
            EnemyKind::Flyer
        },
        g.wave,
    )
}

pub open spec fn splash_factor(k: BuildingType) -> int {
    if spec_splash_sq(k) > 0 {
        2
    } else {
        1
    }
}

/// Expected damage on ground enemies of turret `k` covering `cg` path cells.
pub open spec fn ground_value(g: GameView, k: BuildingType, cg: int) -> int {
    (spec_effective_damage(k, EnemyKind::Infantry) * hp_share(g, 0) + spec_effective_damage(k, EnemyKind::Armor)
        * hp_share(g, 1)) * cg * splash_factor(k)
}

/// Expected damage on flyers of turret `k` covering `ca` cells of their line.
pub open spec fn air_value(g: GameView, k: BuildingType, ca: int) -> int {
    if spec_hits_air(k) {
        spec_effective_damage(k, EnemyKind::Flyer) * hp_share(g, 2) * ca
    } else {
        0
    }
}

/// The score of turret `k` on `pos`: expected damage against the announced
/// wave, weighted by path coverage, per tick of cooldown and per unit of cost.
pub open spec fn build_score(g: GameView, path: Seq<Pos>, air: Seq<Pos>, k: BuildingType, pos: Pos) -> int {
    let cg = cover(k, pos, path, path.len() as int);
    let ca = cover(k, pos, air, air.len() as int);
    (ground_value(g, k, cg) + air_value(g, k, ca)) / (spec_cooldown(k) + 1) / (spec_cost(k) as int)
}

/// Candidate number `n`: cell `n / 5`, building type `n % 5`.
pub open spec fn cand_pos(n: int) -> Pos {
    board_cell(n / 5)
}

pub open spec fn cand_kind(n: int) -> BuildingType {
    spec_building_types()[n % 5]
}

/// Whether the heuristic weighs candidate `n`.
pub open spec fn weighed(g: GameView, path: Seq<Pos>, only: Option<BuildingType>, n: int) -> bool {
    &&& heuristic_free(g, path, cand_pos(n))
    &&& (only matches Some(k) ==> k == cand_kind(n))
    &&& spec_damage(cand_kind(n)) != 0
}

/// The best scoring candidate among the first `n` (the first of equals),
/// among all of them or only among the affordable ones.
pub open spec fn best_upto(g: GameView, path: Seq<Pos>, air: Seq<Pos>, only: Option<BuildingType>, afford: bool, n: int) -> Option<(int, BuildingType, Pos)>
    decreases n,
{
    if n <= 0 {
        None
    } else {
        let prev = best_upto(g, path, air, only, afford, n - 1);
        let k = cand_kind(n - 1);
        let p = cand_pos(n - 1);
        let sc = build_score(g, path, air, k, p);
        if weighed(g, path, only, n - 1) && sc != 0 && (!afford || spec_cost(k) <= g.gold) && (match prev {
            Some(b) => sc > b.0,
            None => true,
        }) {
            Some((sc, k, p))
        } else {
            prev
        }
    }
}

/// The greedy choice: the best affordable (turret, cell), unless the best
/// turret overall is more than twice as good, in which case it saves up.
pub open spec fn spec_best_build(g: GameView, path: Seq<Pos>, only: Option<BuildingType>) -> Option<(BuildingType, Pos)> {
    let air = flight_path(g.entry, g.exit);
    match (best_upto(g, path, air, only, false, 500), best_upto(g, path, air, only, true, 500)) {
        (Some(b), Some(a)) => if a.0 * 2 >= b.0 {
            Some((a.1, a.2))
        } else {
            None
        },
        _ => None,
    }
}

/// The scoring of turret `k` with coverages `cg` and `ca` stays within `u32`.
pub open spec fn score_fits(g: GameView, k: BuildingType, cg: int, ca: int) -> bool {
    let e0 = spec_effective_damage(k, EnemyKind::Infantry) * hp_share(g, 0);
    let e1 = spec_effective_damage(k, EnemyKind::Armor) * hp_share(g, 1);
    let e2 = spec_effective_damage(k, EnemyKind::Flyer) * hp_share(g, 2);
    &&& e0 <= u32::MAX
    &&& e1 <= u32::MAX
    &&& e0 + e1 <= u32::MAX
    &&& (e0 + e1) * cg <= u32::MAX
    &&& ground_value(g, k, cg) <= u32::MAX
    &&& spec_hits_air(k) ==> e2 <= u32::MAX && e2 * ca <= u32::MAX
    &&& ground_value(g, k, cg) + air_value(g, k, ca) <= u32::MAX
}

/// Every computation of `best_build` stays within `u32`.
pub open spec fn best_build_fits(g: GameView, path: Seq<Pos>, only: Option<BuildingType>) -> bool {
    let air = flight_path(g.entry, g.exit);
    &&& wave_hp_fits(g.wave)
    &&& forall|i: int| 0 <= i < 3 ==> #[trigger] hp_share(g, i) <= u32::MAX
    &&& forall|n: int|
        0 <= n < 500 && #[trigger] weighed(g, path, only, n) ==> score_fits(
            g,
            cand_kind(n),
            cover(cand_kind(n), cand_pos(n), path, path.len() as int),
            cover(cand_kind(n), cand_pos(n), air, air.len() as int),
        )
}


fn on_path(path: &[Pos], p: Pos) -> (r: bool)
    ensures
        r == path@.contains(p),
{
    let mut i: usize = 0;
    while i < path.len()
        invariant
            i <= path@.len(),
            forall|j: int| 0 <= j < i ==> path@[j] != p,
        decreases path@.len() - i,
    {
        if path[i] == p {
            return true;
        }
        i += 1;
    }
    false
}

fn heuristic_cell(g: &Game, path: &[Pos], p: Pos) -> (r: bool)
    ensures
        r == heuristic_free(g@, path@, p),
{
    !g.occupied(p) && p != g.entry && p != g.exit && !on_path(path, p)
}

/// How many cells of `p` a turret `k` on `pos` reaches.
fn cover_count(k: BuildingType, pos: Pos, p: &[Pos]) -> (r: u32)
    requires
        in_board(pos),
        cells_in_board(p@),
        p@.len() <= u32::MAX,
    ensures
        r == cover(k, pos, p@, p@.len() as int),
{
    let st = k.stats();
    let mut n: u32 = 0;
    let mut i: usize = 0;
    while i < p.len()
        invariant
            stats_of(k, st),
            in_board(pos),
            cells_in_board(p@),
            p@.len() <= u32::MAX,
            i <= p@.len(),
            n == cover(k, pos, p@, i as int),
            n <= i,
        decreases p@.len() - i,
    {
        proof {
            lemma_board_dist_fits(pos, p@[i as int]);
        }
        let d = pos.dist_sq(p[i]);
        if d <= st.range_sq && d >= st.min_range_sq {
            n = n + 1;
        }
        i += 1;
    }
    n
}

/// Best (turret, cell): expected damage against the announced composition,
/// weighted by path coverage, per unit of cost. Saves up (returns `None`)
/// when the true counter is out of budget.
pub fn best_build(g: &Game, path: &[Pos], only: Option<BuildingType>) -> (r: Option<(BuildingType, Pos)>)
    requires
        board_wf(g@),
        cells_in_board(path@),
        path@.len() <= u32::MAX,
        best_build_fits(g@, path@, only),
    ensures
        r == spec_best_build(g@, path@, only),
{
    let ghost gv = g@;
    let comp = g.composition(g.wave);
    proof {
        lemma_board_line(g.entry, g.exit);
        assert(hp_share(gv, 0) <= u32::MAX);
        assert(hp_share(gv, 1) <= u32::MAX);
        assert(hp_share(gv, 2) <= u32::MAX);
    }
    let air_path = straight_line(g.entry, g.exit);
    let share0 = comp[0] * EnemyKind::Infantry.hp_at(g.wave);
    let share1 = comp[1] * EnemyKind::Armor.hp_at(g.wave);
    let share2 = comp[2] * EnemyKind::Flyer.hp_at(g.wave);
    let ghost air = air_path@;
    proof {
        assert(air.len() <= u32::MAX);
    }
    let kinds = building_types();
    let mut best: Option<(u32, BuildingType, Pos)> = None;
    let mut affordable: Option<(u32, BuildingType, Pos)> = None;
    let mut n: usize = 0;
    while n < 500
        invariant
            n <= 500,
            gv == g@,
            board_wf(gv),
            cells_in_board(path@),
            path@.len() <= u32::MAX,
            best_build_fits(gv, path@, only),
            air == air_path@,
            air == flight_path(gv.entry, gv.exit),
            cells_in_board(air),
            air.len() <= u32::MAX,
            kinds@ == spec_building_types(),
            share0 == hp_share(gv, 0),
            share1 == hp_share(gv, 1),
            share2 == hp_share(gv, 2),
            (match best {
                Some(b) => Some((b.0 as int, b.1, b.2)),
                None => None,
            }) == best_upto(gv, path@, air, only, false, n as int),
            (match affordable {
                Some(b) => Some((b.0 as int, b.1, b.2)),
                None => None,
            }) == best_upto(gv, path@, air, only, true, n as int),
        decreases 500 - n,
    {
        let c = n / 5;
        let pos = Pos::new((c % 10) as i32, (c / 10) as i32);
        let kind = kinds[n % 5];
        let st = kind.stats();
        let wanted = match only {
            Some(k) => k == kind,
            None => true,
        };
        if heuristic_cell(g, path, pos) && wanted && st.damage != 0 {
            assert(weighed(gv, path@, only, n as int));
            let cg = cover_count(kind, pos, path);
            let ca = cover_count(kind, pos, air_path.as_slice());
            let splash: u32 = if st.splash_sq > 0 {
                2
            } else {
                1
            };
            let ground = (effective_damage(kind, EnemyKind::Infantry) * share0 + effective_damage(
                kind,
                EnemyKind::Armor,
            ) * share1) * cg * splash;
            let air_dmg = if st.hits_air {
                effective_damage(kind, EnemyKind::Flyer) * share2 * ca
            } else {
                0
            };
            let score = (ground + air_dmg) / (st.cooldown + 1) / st.cost;
            assert(score == build_score(gv, path@, air, kind, pos));
            if score != 0 {
                let better = match best {
                    Some(b) => score > b.0,
                    None => true,
                };
                if better {
                    best = Some((score, kind, pos));
                }
                let better_affordable = match affordable {
                    Some(b) => score > b.0,
                    None => true,
                };
                if st.cost <= g.gold && better_affordable {
                    affordable = Some((score, kind, pos));
                }
            }
        }
        n += 1;
    }
    match (best, affordable) {
        (Some(b), Some(a)) => {
            if a.0 as u64 * 2 >= b.0 as u64 {
                Some((a.1, a.2))
            } else {
                None
            }
        },
        _ => None,
    }
}


/// A best route never visits a cell twice, so it is at most as long as the
/// board has cells.
pub proof fn lemma_route_short(bl: Seq<Pos>, from: Pos, to: Pos, w: Seq<Pos>)
    requires
        is_best_route(bl, from, to, w),
    ensures
        w.len() <= 100,
{
    assert forall|i: int, j: int| 0 <= i < j < w.len() implies w[i] != w[j] by {
        if w[i] == w[j] {
            let w2 = w.subrange(0, i) + w.subrange(j, w.len() as int);
            assert(w2.len() < w.len());
            assert forall|k: int| 0 <= k < w2.len() implies free(bl, #[trigger] w2[k]) by {
                if k < i {
                    assert(w2[k] == w[k]);
                } else {
                    assert(w2[k] == w[k + j - i]);
                }
            }
            assert forall|k: int| 0 <= k < w2.len() - 1 implies step_dir(#[trigger] w2[k], w2[k + 1]) >= 0 by {
                if k < i - 1 {
                    assert(w2[k] == w[k] && w2[k + 1] == w[k + 1]);
                } else if k == i - 1 {
                    assert(w2[k] == w[k] && w2[k + 1] == w[j] && w[j] == w[k + 1]);
                } else {
                    assert(w2[k] == w[k + j - i] && w2[k + 1] == w[k + 1 + j - i]);
                }
            }
            if i == 0 {
                assert(w2[0] == w[j]);
            } else {
                assert(w2[0] == w[0]);
            }
            assert(w2[w2.len() - 1] == w[w.len() - 1]);
            assert(is_route(bl, from, to, w2));
        }
    }
    let cells = Seq::new(w.len(), |i: int| cell_of(w[i]));
    assert forall|i: int, j: int| 0 <= i < cells.len() && 0 <= j < cells.len() && i != j implies cells[i]
        != cells[j] by {
        assert(free(bl, w[i]) && free(bl, w[j]));
        lemma_cell_roundtrip(w[i]);
        lemma_cell_roundtrip(w[j]);
        if i < j {
            assert(w[i] != w[j]);
        } else {
            assert(w[j] != w[i]);
        }
    }
    cells.unique_seq_to_set();
    assert forall|c: int| cells.to_set().contains(c) implies set_int_range(0, 100).contains(c) by {
        let i = choose|i: int| 0 <= i < cells.len() && cells[i] == c;
        assert(free(bl, w[i]));
        lemma_cell_roundtrip(w[i]);
    }
    lemma_int_range(0, 100);
    lemma_len_subset(cells.to_set(), set_int_range(0, 100));
}

/// The current path of a sound board lies on the board and is short.
proof fn lemma_current_path_short(g: &Game, path: Seq<Pos>)
    requires
        board_wf(g@),
        path == ground_path(g.entry, g.exit, g.buildings@),
        best_route(g.entry, g.exit, crate::sim::walls(g.buildings@)) matches Some(w) ==> is_best_route(
            crate::sim::walls(g.buildings@),
            g.entry,
            g.exit,
            w,
        ),
    ensures
        cells_in_board(path),
        path.len() <= 100,
{
    let bl = crate::sim::walls(g.buildings@);
    match best_route(g.entry, g.exit, bl) {
        Some(w) => {
            assert forall|i: int| 0 <= i < path.len() implies in_board(#[trigger] path[i]) by {
                assert(free(bl, path[i]));
            }
            lemma_route_short(bl, g.entry, g.exit, path);
        },
        None => {},
    }
}

/// The first cell of the board the heuristic may build on, among the first `c`.
pub open spec fn first_free(g: GameView, path: Seq<Pos>, c: int) -> Option<Pos>
    decreases c,
{
    if c <= 0 {
        None
    } else {
        match first_free(g, path, c - 1) {
            Some(p) => Some(p),
            None => if heuristic_free(g, path, board_cell(c - 1)) {
                Some(board_cell(c - 1))
            } else {
                None
            },
        }
    }
}

fn first_free_cell(g: &Game, path: &[Pos]) -> (r: Option<Pos>)
    ensures
        r == first_free(g@, path@, 100),
{
    let mut c: usize = 0;
    while c < 100
        invariant
            c <= 100,
            first_free(g@, path@, c as int) is None,
        decreases 100 - c,
    {
        let p = Pos::new((c % 10) as i32, (c / 10) as i32);
        if heuristic_cell(g, path, p) {
            proof {
                lemma_first_free_stable(g@, path@, c as int + 1, 100);
            }
            return Some(p);
        }
        c += 1;
    }
    None
}

proof fn lemma_first_free_stable(g: GameView, path: Seq<Pos>, m: int, n: int)
    requires
        0 <= m <= n,
        first_free(g, path, m) is Some,
    ensures
        first_free(g, path, n) == first_free(g, path, m),
    decreases n,
{
    if m < n {
        lemma_first_free_stable(g, path, m, n - 1);
    }
}

/// The serious baseline: buys the turret with the best expected damage against
/// the announced wave per unit of cost, and saves up when the true counter is
/// out of budget.
pub struct Greedy {
    name: String,
    /// Restriction to a single turret type (balancing mode).
    pub only: Option<BuildingType>,
    last_eco_wave: u32,
}

/// The name of a greedy agent: `greedy`, or `greedy[type]` when restricted.
pub open spec fn greedy_name(only: Option<BuildingType>) -> Seq<char> {
    match only {
        Some(k) => "greedy["@ + spec_building_name(k) + "]"@,
        None => "greedy"@,
    }
}

/// The greedy decision on game `g` with current path `path`, given the wave of
/// its last eco investment: the action, and the wave of the last investment after it.
pub open spec fn greedy_act(g: GameView, path: Option<Seq<Pos>>, only: Option<BuildingType>, last_eco: u32, refused: bool) -> (Action, u32) {
    if refused {
        (Action::EndTurn, last_eco)
    } else {
        match path {
            None => (Action::EndTurn, last_eco),
            Some(p) => {
                let eco = BuildingType::Eco;
                if g.wave <= 3 && last_eco != g.wave && g.gold >= spec_cost(eco) + 50 && first_free(g, p, 100) is Some {
                    (Action::Build { kind: eco, pos: first_free(g, p, 100)->0 }, g.wave)
                } else {
                    match spec_best_build(g, p, only) {
                        Some((kind, pos)) => (Action::Build { kind, pos }, last_eco),
                        None => (Action::EndTurn, last_eco),
                    }
                }
            },
        }
    }
}

impl Greedy {
    pub fn new(only: Option<BuildingType>) -> (r: Self)
        ensures
            r.name_view() == greedy_name(only),
            r.restriction() == only,
            r.last_eco() == 0,
    {
        let name = match only {
            Some(k) => {
                let mut s = String::from_str("greedy[");
                s.append(k.stats().name);
                s.append("]");
                s
            },
            None => String::from_str("greedy"),
        };
        Greedy { name, only, last_eco_wave: 0 }
    }

    pub closed spec fn name_view(&self) -> Seq<char> {
        self.name@
    }

    /// The turret type the agent is restricted to, if any.
    pub closed spec fn restriction(&self) -> Option<BuildingType> {
        self.only
    }

    /// The wave of the last eco investment.
    pub closed spec fn last_eco(&self) -> u32 {
        self.last_eco_wave
    }

}

impl Agent for Greedy {
    closed spec fn can_act(&self, g: GameView) -> bool {
        best_build_fits(g, ground_path(g.entry, g.exit, g.buildings), self.only)
    }

    fn name(&self) -> (s: &str)
        ensures
            s@ == self.name_view(),
    {
        self.name.as_str()
    }

    fn ready(&self, g: &Game) -> (r: bool) {
        let path = match g.current_path() {
            Some(p) => p,
            None => Vec::new(),
        };
        proof {
            lemma_current_path_short(g, path@);
        }
        build_scores_fit(g, path.as_slice(), self.only)
    }

    closed spec fn named(&self, n: Seq<char>) -> bool {
        n == self.name_view()
    }

    /// The greedy agent reads the game, never the observation's text.
    closed spec fn chooses(&self, g: GameView, obs: Observation, last_error: Option<ErrorCode>, a: Action, after: Self) -> bool {
        &&& (a, after.last_eco()) == greedy_act(
            g,
            best_route(g.entry, g.exit, crate::sim::walls(g.buildings)),
            self.restriction(),
            self.last_eco(),
            last_error is Some,
        )
        &&& after.restriction() == self.restriction()
        &&& after.name_view() == self.name_view()
    }

    /// The next action. A refused previous action means the plan is stale:
    /// the round is closed rather than burning credits.
    fn act(&mut self, g: &Game, obs: &Observation, last_error: Option<ErrorCode>) -> (a: Action)
        ensures
            (a, final(self).last_eco()) == greedy_act(
                g@,
                best_route(g.entry, g.exit, crate::sim::walls(g.buildings@)),
                old(self).restriction(),
                old(self).last_eco(),
                last_error is Some,
            ),
            final(self).restriction() == old(self).restriction(),
            final(self).name_view() == old(self).name_view(),
    {
        if last_error.is_some() {
            return Action::EndTurn;
        }
        let path = match g.current_path() {
            Some(p) => p,
            None => return Action::EndTurn,
        };
        proof {
            lemma_current_path_short(g, path@);
        }
        let eco = BuildingType::Eco;
        if g.wave <= 3 && self.last_eco_wave != g.wave && g.gold >= eco.stats().cost + 50 {
            match first_free_cell(g, path.as_slice()) {
                Some(pos) => {
                    self.last_eco_wave = g.wave;
                    return Action::Build { kind: eco, pos };
                },
                None => {},
            }
        }
        match best_build(g, path.as_slice(), self.only) {
            Some((kind, pos)) => Action::Build { kind, pos },
            None => Action::EndTurn,
        }
    }
}


/// The product of two `u32`, which always fits in a `u64`.
fn wide_product(a: u32, b: u32) -> (r: u64)
    ensures
        r == a * b,
{
    assert(a * b <= 0xffff_ffff * 0xffff_ffff) by (nonlinear_arith)
        requires
            a <= 0xffff_ffff,
            b <= 0xffff_ffff,
    ;
    a as u64 * b as u64
}

/// Whether scoring turret `kind` on `pos` stays within `u32`.
fn candidate_fits(g: &Game, kind: BuildingType, pos: Pos, path: &[Pos], air: &[Pos], s0: u64, s1: u64, s2: u64) -> (r: bool)
    requires
        in_board(pos),
        cells_in_board(path@),
        cells_in_board(air@),
        path@.len() <= 100,
        air@.len() <= 100,
        s0 == hp_share(g@, 0) && s1 == hp_share(g@, 1) && s2 == hp_share(g@, 2),
        s0 <= u32::MAX && s1 <= u32::MAX && s2 <= u32::MAX,
    ensures
        r == score_fits(g@, kind, cover(kind, pos, path@, path@.len() as int), cover(kind, pos, air@, air@.len() as int)),
{
    let max = u32::MAX as u64;
    let st = kind.stats();
    let cg = cover_count(kind, pos, path) as u64;
    let ca = cover_count(kind, pos, air) as u64;
    proof {
        lemma_cover_bound(kind, pos, path@, path@.len() as int);
        lemma_cover_bound(kind, pos, air@, air@.len() as int);
    }
    let d0 = effective_damage(kind, EnemyKind::Infantry) as u64;
    let d1 = effective_damage(kind, EnemyKind::Armor) as u64;
    let d2 = effective_damage(kind, EnemyKind::Flyer) as u64;
    proof {
        crate::sim::lemma_hit_max(kind, EnemyKind::Infantry);
        crate::sim::lemma_hit_max(kind, EnemyKind::Armor);
        crate::sim::lemma_hit_max(kind, EnemyKind::Flyer);
    }
    assert(d0 * s0 <= 45 * 0xffff_ffff) by (nonlinear_arith)
        requires
            d0 <= 45,
            s0 <= 0xffff_ffff,
    ;
    assert(d1 * s1 <= 45 * 0xffff_ffff) by (nonlinear_arith)
        requires
            d1 <= 45,
            s1 <= 0xffff_ffff,
    ;
    assert(d2 * s2 <= 45 * 0xffff_ffff) by (nonlinear_arith)
        requires
            d2 <= 45,
            s2 <= 0xffff_ffff,
    ;
    let e0 = d0 * s0;
    let e1 = d1 * s1;
    let e2 = d2 * s2;
    let splash: u64 = if st.splash_sq > 0 {
        2
    } else {
        1
    };
    if e0 > max || e1 > max || e0 + e1 > max {
        return false;
    }
    assert((e0 + e1) * cg <= 0xffff_ffff * 100) by (nonlinear_arith)
        requires
            e0 + e1 <= 0xffff_ffff,
            cg <= 100,
    ;
    if (e0 + e1) * cg > max {
        return false;
    }
    if (e0 + e1) * cg * splash > max {
        return false;
    }
    let ground = (e0 + e1) * cg * splash;
    let air_dmg = if st.hits_air {
        if e2 > max {
            return false;
        }
        assert(e2 * ca <= 0xffff_ffff * 100) by (nonlinear_arith)
            requires
                e2 <= 0xffff_ffff,
                ca <= 100,
        ;
        if e2 * ca > max {
            return false;
        }
        e2 * ca
    } else {
        0
    };
    ground + air_dmg <= max
}

proof fn lemma_cover_bound(k: BuildingType, pos: Pos, p: Seq<Pos>, n: int)
    requires
        0 <= n <= p.len(),
    ensures
        0 <= cover(k, pos, p, n) <= n,
    decreases n,
{
    if n > 0 {
        lemma_cover_bound(k, pos, p, n - 1);
    }
}

/// Whether every computation of `best_build` stays within `u32`.
fn build_scores_fit(g: &Game, path: &[Pos], only: Option<BuildingType>) -> (r: bool)
    requires
        board_wf(g@),
        cells_in_board(path@),
        path@.len() <= 100,
    ensures
        r == best_build_fits(g@, path@, only),
{
    let ghost gv = g@;
    if !(EnemyKind::Infantry.hp_fits(g.wave) && EnemyKind::Armor.hp_fits(g.wave) && EnemyKind::Flyer.hp_fits(
        g.wave,
    )) {
        return false;
    }
    let comp = g.composition(g.wave);
    let s0 = wide_product(comp[0], EnemyKind::Infantry.hp_at(g.wave));
    let s1 = wide_product(comp[1], EnemyKind::Armor.hp_at(g.wave));
    let s2 = wide_product(comp[2], EnemyKind::Flyer.hp_at(g.wave));
    let max = u32::MAX as u64;
    if s0 > max || s1 > max || s2 > max {
        proof {
            if s0 > max {
                assert(hp_share(gv, 0) > u32::MAX);
            } else if s1 > max {
                assert(hp_share(gv, 1) > u32::MAX);
            } else {
                assert(hp_share(gv, 2) > u32::MAX);
            }
        }
        return false;
    }
    assert forall|i: int| 0 <= i < 3 implies #[trigger] hp_share(gv, i) <= u32::MAX by {
        if i == 0 {
        } else if i == 1 {
        } else {
        }
    }
    proof {
        lemma_board_line(g.entry, g.exit);
    }
    let air_path = straight_line(g.entry, g.exit);
    let ghost air = air_path@;
    proof {
        crate::flight::lemma_line_short(g.entry, g.exit);
    }
    let kinds = building_types();
    let mut n: usize = 0;
    while n < 500
        invariant
            n <= 500,
            gv == g@,
            board_wf(gv),
            cells_in_board(path@),
            path@.len() <= 100,
            air == air_path@,
            air == flight_path(gv.entry, gv.exit),
            cells_in_board(air),
            air.len() <= 100,
            kinds@ == spec_building_types(),
            s0 == hp_share(gv, 0),
            s1 == hp_share(gv, 1),
            s2 == hp_share(gv, 2),
            s0 <= max && s1 <= max && s2 <= max,
            max == u32::MAX,
            forall|m: int|
                0 <= m < n && #[trigger] weighed(gv, path@, only, m) ==> score_fits(
                    gv,
                    cand_kind(m),
                    cover(cand_kind(m), cand_pos(m), path@, path@.len() as int),
                    cover(cand_kind(m), cand_pos(m), air, air.len() as int),
                ),
        decreases 500 - n,
    {
        let c = n / 5;
        let pos = Pos::new((c % 10) as i32, (c / 10) as i32);
        let kind = kinds[n % 5];
        let st = kind.stats();
        let wanted = match only {
            Some(k) => k == kind,
            None => true,
        };
        if heuristic_cell(g, path, pos) && wanted && st.damage != 0 {
            assert(weighed(gv, path@, only, n as int));
            if !candidate_fits(g, kind, pos, path, air_path.as_slice(), s0, s1, s2) {
                return false;
            }
        }
        n += 1;
    }
    true
}


/// Two greedy agents that agree on their restriction, their last eco wave
/// and their name act alike.
pub open spec fn greedy_alike(x: Greedy, y: Greedy) -> bool {
    &&& x.restriction() == y.restriction()
    &&& x.last_eco() == y.last_eco()
    &&& x.name_view() == y.name_view()
}

/// The greedy agent reads the game and the answer to its last action, never
/// the observation: alike agents answer the same game alike, whatever they
/// are shown, and stay alike.
pub proof fn lemma_greedy_ignores_the_observation(
    x: Greedy,
    y: Greedy,
    g: GameView,
    o1: Observation,
    o2: Observation,
    last: Option<ErrorCode>,
    a1: Action,
    a2: Action,
    x2: Greedy,
    y2: Greedy,
)
    requires
        greedy_alike(x, y),
        x.chooses(g, o1, last, a1, x2),
        y.chooses(g, o2, last, a2, y2),
    ensures
        a1 == a2,
        greedy_alike(x2, y2),
{
}


/// Candidate `n` is one the heuristic weighs, with a score, and (when
/// `afford`) a price within the gold.
pub open spec fn contender(g: GameView, path: Seq<Pos>, air: Seq<Pos>, only: Option<BuildingType>, afford: bool, n: int) -> bool {
    &&& weighed(g, path, only, n)
    &&& build_score(g, path, air, cand_kind(n), cand_pos(n)) != 0
    &&& (afford ==> spec_cost(cand_kind(n)) <= g.gold)
}

/// What the best of the first `n` candidates is: one of them, scoring at
/// least as much as every other; none when there is no contender.
proof fn lemma_best_upto(g: GameView, path: Seq<Pos>, air: Seq<Pos>, only: Option<BuildingType>, afford: bool, n: int)
    requires
        n >= 0,
    ensures
        match best_upto(g, path, air, only, afford, n) {
            Some((sc, k, p)) => {
                &&& exists|m: int|
                    0 <= m < n && #[trigger] contender(g, path, air, only, afford, m) && cand_kind(m) == k
                        && cand_pos(m) == p
                &&& sc == build_score(g, path, air, k, p)
                &&& forall|m: int|
                    0 <= m < n && #[trigger] contender(g, path, air, only, afford, m) ==> build_score(
                        g,
                        path,
                        air,
                        cand_kind(m),
                        cand_pos(m),
                    ) <= sc
            },
            None => forall|m: int| 0 <= m < n ==> !#[trigger] contender(g, path, air, only, afford, m),
        },
    decreases n,
{
    if n > 0 {
        lemma_best_upto(g, path, air, only, afford, n - 1);
        let prev = best_upto(g, path, air, only, afford, n - 1);
        let k = cand_kind(n - 1);
        let p = cand_pos(n - 1);
        let sc = build_score(g, path, air, k, p);
        let c = contender(g, path, air, only, afford, n - 1);
        assert(c == (weighed(g, path, only, n - 1) && sc != 0 && (!afford || spec_cost(k) <= g.gold)));
        let takes = c && (match prev {
            Some(b) => sc > b.0,
            None => true,
        });
        if takes {
            assert(best_upto(g, path, air, only, afford, n) == Some((sc, k, p)));
            assert(contender(g, path, air, only, afford, n - 1) && cand_kind(n - 1) == k && cand_pos(n - 1) == p);
        } else {
            assert(best_upto(g, path, air, only, afford, n) == prev);
            match prev {
                Some(b) => {
                    let m0 = choose|m: int|
                        0 <= m < n - 1 && #[trigger] contender(g, path, air, only, afford, m) && cand_kind(m) == b.1
                            && cand_pos(m) == b.2;
                    assert(0 <= m0 < n && contender(g, path, air, only, afford, m0));
                },
                None => {},
            }
        }
    }
}

/// The greedy agent buys the best turret it can afford only when nothing
/// scores more than twice as much; when the true counter is out of budget
/// (it scores more than twice the best affordable one), it saves up.
pub proof fn lemma_greedy_saves_for_the_counter(g: GameView, path: Seq<Pos>, only: Option<BuildingType>)
    ensures
        ({
            let air = flight_path(g.entry, g.exit);
            let score = |m: int| build_score(g, path, air, cand_kind(m), cand_pos(m));
            match spec_best_build(g, path, only) {
                Some((k, p)) => {
                    &&& spec_cost(k) <= g.gold
                    &&& exists|m: int|
                        0 <= m < 500 && #[trigger] contender(g, path, air, only, true, m) && cand_kind(m) == k
                            && cand_pos(m) == p
                    &&& forall|m: int|
                        0 <= m < 500 && #[trigger] contender(g, path, air, only, true, m) ==> score(m)
                            <= build_score(g, path, air, k, p)
                    &&& forall|m: int|
                        0 <= m < 500 && #[trigger] contender(g, path, air, only, false, m) ==> score(m)
                            <= 2 * build_score(g, path, air, k, p)
                },
                None => {
                    ||| forall|m: int| 0 <= m < 500 ==> !#[trigger] contender(g, path, air, only, true, m)
                    ||| exists|m: int|
                        0 <= m < 500 && #[trigger] contender(g, path, air, only, false, m) && forall|j: int|
                            0 <= j < 500 && #[trigger] contender(g, path, air, only, true, j) ==> 2 * score(j)
                                < score(m)
                },
            }
        }),
{
    let air = flight_path(g.entry, g.exit);
    lemma_best_upto(g, path, air, only, false, 500);
    lemma_best_upto(g, path, air, only, true, 500);
    match (best_upto(g, path, air, only, false, 500), best_upto(g, path, air, only, true, 500)) {
        (Some(b), Some(a)) => {
            let mb = choose|m: int|
                0 <= m < 500 && #[trigger] contender(g, path, air, only, false, m) && cand_kind(m) == b.1
                    && cand_pos(m) == b.2;
            let ma = choose|m: int|
                0 <= m < 500 && #[trigger] contender(g, path, air, only, true, m) && cand_kind(m) == a.1
                    && cand_pos(m) == a.2;
            assert(contender(g, path, air, only, true, ma));
            assert(contender(g, path, air, only, false, mb));
        },
        (Some(b), None) => {},
        _ => {
            assert forall|m: int| 0 <= m < 500 implies !#[trigger] contender(g, path, air, only, true, m) by {
                assert(!contender(g, path, air, only, false, m));
            }
        },
    }
}

} // verus!
