//! Resolution of a wave: a discrete-tick simulation, fully deterministic.
//!
//! The order within a tick is fixed: spawn, turrets fire, the dead are
//! removed, enemies move.
use vstd::prelude::*;
use vstd::multiset::Multiset;
use crate::types::{Pos, Building, BuildingType, EnemyKind, in_board, spec_hits_air, spec_min_range_sq, spec_range_sq, spec_dist_sq, spec_splash_sq, spec_damage, spec_cooldown, spec_move_period, spec_lives_cost, spec_enemy_index, hp_at_fits, spec_hp_at, stats_of, lemma_board_dist_fits};
use crate::rng::{Rng, seeded_state, xorshift_step, xorshift_output};
use crate::waves::{spec_effective_damage, spec_wave_composition, wave_composition, effective_damage};
use crate::path::{best_route, shortest_path, cell_of, indexable, lemma_cell_roundtrip, path_view, free, is_walk, is_route};
use crate::flight::{flight_path, straight_line, line_fits, lemma_board_line};
use crate::game::{Game, board_wf};

verus! {

/// Ticks between two spawns.
pub const SPAWN_PERIOD: u32 = 3;

/// Safety net: a wave never runs longer than this.
pub const MAX_TICKS: u32 = 5000;

/// An enemy on the field.
#[derive(Clone, Copy, Debug)]
pub struct Enemy {
    pub id: u32,
    pub kind: EnemyKind,
    pub hp: u32,
    /// Index on its path (progress; also drives targeting).
    pub idx: usize,
    pub acc: u32,
}

/// Report of a resolved wave.
#[derive(Clone, Debug)]
pub struct WaveReport {
    pub wave: u32,
    pub kills: [u32; 3],
    pub leaked: [u32; 3],
    pub lives_lost: u32,
    /// (building id, damage dealt during this wave), in building order.
    pub damage_by_building: Vec<(u32, u32)>,
    pub ticks: u32,
}

/// The content of a wave report.
#[verifier::ext_equal]
pub struct ReportView {
    pub wave: u32,
    pub kills: Seq<u32>,
    pub leaked: Seq<u32>,
    pub lives_lost: u32,
    pub damage_by_building: Seq<(u32, u32)>,
    pub ticks: u32,
}

impl View for WaveReport {
    type V = ReportView;

    open spec fn view(&self) -> ReportView {
        ReportView {
            wave: self.wave,
            kills: self.kills@,
            leaked: self.leaked@,
            lives_lost: self.lives_lost,
            damage_by_building: self.damage_by_building@,
            ticks: self.ticks,
        }
    }
}

// ------------------------------------------------------------ spawn order

/// The unshuffled spawn list: infantry, then armor, then flyers.
pub open spec fn grouped(c: Seq<u32>) -> Seq<EnemyKind> {
    Seq::new(c[0] as nat, |i: int| EnemyKind::Infantry) + Seq::new(c[1] as nat, |i: int| EnemyKind::Armor)
        + Seq::new(c[2] as nat, |i: int| EnemyKind::Flyer)
}

/// Seeded Fisher-Yates, from index `i` down to 1, with generator state `st`.
pub open spec fn shuffle_down(list: Seq<EnemyKind>, st: u64, i: int) -> Seq<EnemyKind>
    decreases i,
{
    if i <= 0 {
        list
    } else {
        let st2 = xorshift_step(st);
        let j = (xorshift_output(st2) % ((i + 1) as u64)) as int;
        shuffle_down(list.update(i, list[j]).update(j, list[i]), st2, i - 1)
    }
}

/// The seed of the spawn-order generator of a wave.
pub open spec fn order_seed(seed: u64, wave: u32) -> u64 {
    seed ^ ((wave as u64) << 32u64)
}

/// Shuffled spawn order, derived from the seed and the wave number.
pub open spec fn spec_spawn_order(seed: u64, wave: u32, c: Seq<u32>) -> Seq<EnemyKind> {
    let list = grouped(c);
    shuffle_down(list, seeded_state(order_seed(seed, wave)), list.len() - 1)
}

// ------------------------------------------------------------ tick rules

pub open spec fn route_of(kind: EnemyKind, ground: Seq<Pos>, air: Seq<Pos>) -> Seq<Pos> {
    if kind == EnemyKind::Flyer {
        air
    } else {
        ground
    }
}

/// Where an enemy stands: its path cell, or the path's end once past it.
pub open spec fn enemy_pos(e: Enemy, ground: Seq<Pos>, air: Seq<Pos>) -> Pos {
    let p = route_of(e.kind, ground, air);
    if e.idx < p.len() {
        p[e.idx as int]
    } else {
        p[p.len() - 1]
    }
}

/// Turrets that cannot hit the air ignore flyers.
pub open spec fn can_hit(k: BuildingType, e: Enemy) -> bool {
    spec_hits_air(k) || e.kind != EnemyKind::Flyer
}

pub open spec fn in_reach(b: Building, e: Enemy, ground: Seq<Pos>, air: Seq<Pos>) -> bool {
    &&& can_hit(b.kind, e)
    &&& spec_min_range_sq(b.kind) <= spec_dist_sq(b.pos, enemy_pos(e, ground, air)) <= spec_range_sq(
        b.kind,
    )
}

/// Targeting priority: further along the path, then lower id.
pub open spec fn ahead_or_same(a: Enemy, b: Enemy) -> bool {
    a.idx > b.idx || (a.idx == b.idx && a.id <= b.id)
}

/// The target among the first `n` enemies: the most advanced in reach
/// (the last of equals, as a running maximum keeps it).
pub open spec fn target_among(b: Building, alive: Seq<Enemy>, ground: Seq<Pos>, air: Seq<Pos>, n: int) -> Option<int>
    decreases n,
{
    if n <= 0 {
        None
    } else {
        let r = target_among(b, alive, ground, air, n - 1);
        if in_reach(b, alive[n - 1], ground, air) {
            match r {
                Some(j) => if ahead_or_same(alive[n - 1], alive[j]) {
                    Some(n - 1)
                } else {
                    Some(j)
                },
                None => Some(n - 1),
            }
        } else {
            r
        }
    }
}

/// Aiming is undefined when an enemy the turret considers has no path.
pub open spec fn aim_fault(b: Building, alive: Seq<Enemy>, ground: Seq<Pos>, air: Seq<Pos>) -> bool {
    exists|j: int|
        0 <= j < alive.len() && can_hit(b.kind, #[trigger] alive[j]) && route_of(alive[j].kind, ground, air).len()
            == 0
}

/// Damage a shot of `b` landing at `tp` deals to `e`.
pub open spec fn hit_amount(b: Building, tp: Pos, e: Enemy, ground: Seq<Pos>, air: Seq<Pos>) -> u32 {
    if !can_hit(b.kind, e) {
        0
    } else if spec_dist_sq(enemy_pos(e, ground, air), tp) > spec_splash_sq(b.kind) {
        0
    } else if spec_effective_damage(b.kind, e.kind) < e.hp {
        spec_effective_damage(b.kind, e.kind)
    } else {
        e.hp
    }
}

pub open spec fn after_hit(b: Building, tp: Pos, e: Enemy, ground: Seq<Pos>, air: Seq<Pos>) -> Enemy {
    Enemy { hp: (e.hp - hit_amount(b, tp, e, ground, air)) as u32, ..e }
}

/// Total damage of a shot over the first `n` enemies.
pub open spec fn splash_total(b: Building, tp: Pos, alive: Seq<Enemy>, ground: Seq<Pos>, air: Seq<Pos>, n: int) -> int
    decreases n,
{
    if n <= 0 {
        0
    } else {
        splash_total(b, tp, alive, ground, air, n - 1) + hit_amount(b, tp, alive[n - 1], ground, air)
    }
}

/// State during the firing phase.
#[verifier::ext_equal]
pub struct Volley {
    pub alive: Seq<Enemy>,
    pub cds: Seq<u32>,
    pub dmg: Seq<u32>,
    pub fault: bool,
}

/// Building `b` (number `i`) takes its turn to fire.
pub open spec fn fire_one(b: Building, i: int, v: Volley, ground: Seq<Pos>, air: Seq<Pos>) -> Volley {
    if v.fault || spec_damage(b.kind) == 0 {
        v
    } else if v.cds[i] > 0 {
        Volley { cds: v.cds.update(i, (v.cds[i] - 1) as u32), ..v }
    } else if aim_fault(b, v.alive, ground, air) {
        Volley { fault: true, ..v }
    } else {
        match target_among(b, v.alive, ground, air, v.alive.len() as int) {
            None => v,
            Some(t) => {
                let tp = enemy_pos(v.alive[t], ground, air);
                Volley {
                    alive: Seq::new(v.alive.len(), |j: int| after_hit(b, tp, v.alive[j], ground, air)),
                    cds: v.cds.update(i, spec_cooldown(b.kind)),
                    dmg: v.dmg.update(
                        i,
                        (v.dmg[i] + splash_total(b, tp, v.alive, ground, air, v.alive.len() as int)) as u32,
                    ),
                    fault: false,
                }
            },
        }
    }
}

/// The first `n` buildings fire, in order.
pub open spec fn fire_all(bs: Seq<Building>, n: int, v: Volley, ground: Seq<Pos>, air: Seq<Pos>) -> Volley
    decreases n,
{
    if n <= 0 {
        v
    } else {
        fire_one(bs[n - 1], n - 1, fire_all(bs, n - 1, v, ground, air), ground, air)
    }
}

/// Survivors among the first `n` enemies, in order.
pub open spec fn survivors(alive: Seq<Enemy>, n: int) -> Seq<Enemy>
    decreases n,
{
    if n <= 0 {
        seq![]
    } else if alive[n - 1].hp > 0 {
        survivors(alive, n - 1).push(alive[n - 1])
    } else {
        survivors(alive, n - 1)
    }
}

/// Dead enemies of kind `k` among the first `n`.
pub open spec fn dead_count(alive: Seq<Enemy>, n: int, k: EnemyKind) -> int
    decreases n,
{
    if n <= 0 {
        0
    } else {
        dead_count(alive, n - 1, k) + if alive[n - 1].hp == 0 && alive[n - 1].kind == k {
            1int
        } else {
            0int
        }
    }
}

/// An enemy after one tick of movement.
pub open spec fn advanced(e: Enemy) -> Enemy {
    if e.acc + 1 < spec_move_period(e.kind) {
        Enemy { acc: (e.acc + 1) as u32, ..e }
    } else {
        Enemy { acc: 0, idx: (e.idx + 1) as usize, ..e }
    }
}

/// Whether the enemy reaches the exit (or has no path) this tick.
pub open spec fn escapes(e: Enemy, ground: Seq<Pos>, air: Seq<Pos>) -> bool {
    let p = route_of(e.kind, ground, air);
    e.acc + 1 >= spec_move_period(e.kind) && (p.len() == 0 || e.idx + 1 >= p.len() - 1)
}

/// Enemies still on the field after moving, among the first `n`.
pub open spec fn marched(alive: Seq<Enemy>, n: int, ground: Seq<Pos>, air: Seq<Pos>) -> Seq<Enemy>
    decreases n,
{
    if n <= 0 {
        seq![]
    } else if escapes(alive[n - 1], ground, air) {
        marched(alive, n - 1, ground, air)
    } else {
        marched(alive, n - 1, ground, air).push(advanced(alive[n - 1]))
    }
}

/// Escapes of kind `k` among the first `n`.
pub open spec fn escape_count(alive: Seq<Enemy>, n: int, k: EnemyKind, ground: Seq<Pos>, air: Seq<Pos>) -> int
    decreases n,
{
    if n <= 0 {
        0
    } else {
        escape_count(alive, n - 1, k, ground, air) + if escapes(alive[n - 1], ground, air)
            && alive[n - 1].kind == k {
            1int
        } else {
            0int
        }
    }
}

/// Lives cost of the escapes among the first `n`.
pub open spec fn escape_cost(alive: Seq<Enemy>, n: int, ground: Seq<Pos>, air: Seq<Pos>) -> int
    decreases n,
{
    if n <= 0 {
        0
    } else {
        escape_cost(alive, n - 1, ground, air) + if escapes(alive[n - 1], ground, air) {
            spec_lives_cost(alive[n - 1].kind) as int
        } else {
            0int
        }
    }
}

/// Whole state of a running wave.
#[verifier::ext_equal]
pub struct SimState {
    /// Enemies still to spawn; the last one comes first.
    pub queue: Seq<EnemyKind>,
    pub alive: Seq<Enemy>,
    pub cds: Seq<u32>,
    pub dmg: Seq<u32>,
    pub next_id: u32,
    pub kills: Seq<u32>,
    pub leaked: Seq<u32>,
    pub lives_lost: u32,
    pub ticks: u32,
    pub done: bool,
    pub fault: bool,
}

/// Adds `n` to entry `k` of a per-kind count.
pub open spec fn bump(c: Seq<u32>, k: EnemyKind, n: int) -> Seq<u32> {
    c.update(spec_enemy_index(k), (c[spec_enemy_index(k)] + n) as u32)
}

/// Phase 1: every third tick the next enemy enters.
pub open spec fn spawned(s: SimState, tick: int, wave: u32) -> SimState {
    if tick % 3 == 0 && s.queue.len() > 0 {
        let k = s.queue[s.queue.len() - 1];
        if !hp_at_fits(k, wave) {
            SimState { fault: true, ..s }
        } else {
            SimState {
                queue: s.queue.drop_last(),
                alive: s.alive.push(Enemy { id: s.next_id, kind: k, hp: spec_hp_at(k, wave), idx: 0, acc: 0 }),
                next_id: (s.next_id + 1) as u32,
                ..s
            }
        }
    } else {
        s
    }
}

/// Phases 3 and 4: the dead are removed, then the rest move.
pub open spec fn cleared(s: SimState, v: Volley, ground: Seq<Pos>, air: Seq<Pos>) -> SimState {
    let a = v.alive;
    let n = a.len() as int;
    let b = survivors(a, n);
    let m = b.len() as int;
    let kills = bump(
        bump(bump(s.kills, EnemyKind::Infantry, dead_count(a, n, EnemyKind::Infantry)), EnemyKind::Armor, dead_count(a, n, EnemyKind::Armor)),
        EnemyKind::Flyer,
        dead_count(a, n, EnemyKind::Flyer),
    );
    let leaked = bump(
        bump(
            bump(s.leaked, EnemyKind::Infantry, escape_count(b, m, EnemyKind::Infantry, ground, air)),
            EnemyKind::Armor,
            escape_count(b, m, EnemyKind::Armor, ground, air),
        ),
        EnemyKind::Flyer,
        escape_count(b, m, EnemyKind::Flyer, ground, air),
    );
    SimState {
        alive: marched(b, m, ground, air),
        cds: v.cds,
        dmg: v.dmg,
        kills,
        leaked,
        lives_lost: (s.lives_lost + escape_cost(b, m, ground, air)) as u32,
        ..s
    }
}

/// One tick of the wave.
pub open spec fn tick_step(
    bs: Seq<Building>,
    wave: u32,
    ground: Seq<Pos>,
    air: Seq<Pos>,
    s: SimState,
    tick: int,
) -> SimState {
    if s.done || s.fault {
        s
    } else if s.queue.len() == 0 && s.alive.len() == 0 {
        SimState { done: true, ticks: tick as u32, ..s }
    } else {
        let s1 = spawned(s, tick, wave);
        if s1.fault {
            s1
        } else {
            let v = fire_all(
                bs,
                bs.len() as int,
                Volley { alive: s1.alive, cds: s1.cds, dmg: s1.dmg, fault: false },
                ground,
                air,
            );
            if v.fault {
                SimState { fault: true, ..s1 }
            } else {
                SimState { ticks: (tick + 1) as u32, ..cleared(s1, v, ground, air) }
            }
        }
    }
}

/// The state before the first tick.
pub open spec fn sim_start(seed: u64, wave: u32, nb: int) -> SimState {
    SimState {
        queue: spec_spawn_order(seed, wave, spec_wave_composition(seed, wave)).reverse(),
        alive: seq![],
        cds: Seq::new(nb as nat, |i: int| 0u32),
        dmg: Seq::new(nb as nat, |i: int| 0u32),
        next_id: 0,
        kills: seq![0u32, 0u32, 0u32],
        leaked: seq![0u32, 0u32, 0u32],
        lives_lost: 0,
        ticks: 0,
        done: false,
        fault: false,
    }
}

/// The state after `n` ticks.
pub open spec fn sim_after(
    seed: u64,
    wave: u32,
    bs: Seq<Building>,
    ground: Seq<Pos>,
    air: Seq<Pos>,
    n: nat,
) -> SimState
    decreases n,
{
    if n == 0 {
        sim_start(seed, wave, bs.len() as int)
    } else {
        tick_step(bs, wave, ground, air, sim_after(seed, wave, bs, ground, air, (n - 1) as nat), n - 1)
    }
}

/// (building id, damage) for the first `n` buildings that dealt damage.
pub open spec fn damage_entries(bs: Seq<Building>, dmg: Seq<u32>, n: int) -> Seq<(u32, u32)>
    decreases n,
{
    if n <= 0 {
        seq![]
    } else if dmg[n - 1] > 0 {
        damage_entries(bs, dmg, n - 1).push((bs[n - 1].id, dmg[n - 1]))
    } else {
        damage_entries(bs, dmg, n - 1)
    }
}

/// Positions of the buildings: the walls of the maze.
pub open spec fn walls(bs: Seq<Building>) -> Seq<Pos> {
    Seq::new(bs.len(), |i: int| bs[i].pos)
}

/// The ground path of a board: the best route, or nothing when blocked.
pub open spec fn ground_path(entry: Pos, exit: Pos, bs: Seq<Building>) -> Seq<Pos> {
    match best_route(entry, exit, walls(bs)) {
        Some(p) => p,
        None => seq![],
    }
}

/// The state at the end of a wave.
#[verifier::opaque]
pub open spec fn wave_end(seed: u64, wave: u32, entry: Pos, exit: Pos, bs: Seq<Building>) -> SimState {
    sim_after(seed, wave, bs, ground_path(entry, exit, bs), flight_path(entry, exit), MAX_TICKS as nat)
}

/// The report read off a final state.
pub open spec fn report_of(wave: u32, s: SimState, bs: Seq<Building>) -> ReportView {
    ReportView {
        wave,
        kills: s.kills,
        leaked: s.leaked,
        lives_lost: s.lives_lost,
        damage_by_building: damage_entries(bs, s.dmg, bs.len() as int),
        ticks: s.ticks,
    }
}

/// The report of the wave.
pub open spec fn spec_wave_report(seed: u64, wave: u32, entry: Pos, exit: Pos, bs: Seq<Building>) -> ReportView {
    report_of(wave, wave_end(seed, wave, entry, exit, bs), bs)
}


// ------------------------------------------------------------ bounds of a wave

/// Largest damage of a single hit.
pub proof fn lemma_hit_max(k: BuildingType, t: EnemyKind)
    ensures
        spec_effective_damage(k, t) <= 45,
{
}

proof fn lemma_splash_total_bound(b: Building, tp: Pos, alive: Seq<Enemy>, ground: Seq<Pos>, air: Seq<Pos>, n: int)
    requires
        0 <= n <= alive.len(),
    ensures
        0 <= splash_total(b, tp, alive, ground, air, n) <= 45 * n,
    decreases n,
{
    if n > 0 {
        lemma_splash_total_bound(b, tp, alive, ground, air, n - 1);
        lemma_hit_max(b.kind, alive[n - 1].kind);
    }
}

/// Per-enemy facts kept through a wave: `idx` at most the tick count,
/// `acc` below the move period, `id` below the next id.
pub open spec fn enemies_ok(alive: Seq<Enemy>, tick: int, next_id: int) -> bool {
    forall|j: int|
        0 <= j < alive.len() ==> (#[trigger] alive[j]).idx <= tick && alive[j].acc < spec_move_period(
            alive[j].kind,
        ) && alive[j].id < next_id
}

/// Bounds of the firing phase state.
pub open spec fn volley_ok(v: Volley, nb: int, tick: int, next_id: int, limit: int) -> bool {
    &&& v.cds.len() == nb
    &&& v.dmg.len() == nb
    &&& enemies_ok(v.alive, tick, next_id)
    &&& forall|i: int| 0 <= i < nb ==> #[trigger] v.cds[i] <= 5
    &&& forall|i: int| 0 <= i < nb ==> #[trigger] v.dmg[i] <= limit
}

proof fn lemma_fire_one_ok(b: Building, i: int, v: Volley, ground: Seq<Pos>, air: Seq<Pos>, nb: int, tick: int, next_id: int, limit: int)
    requires
        0 <= i < nb,
        volley_ok(v, nb, tick, next_id, limit),
        v.dmg[i] + 45 * v.alive.len() <= limit + 45 * v.alive.len(),
        v.dmg[i] <= limit - 45 * v.alive.len(),
    ensures
        ({
            let w = fire_one(b, i, v, ground, air);
            &&& volley_ok(w, nb, tick, next_id, limit)
            &&& w.alive.len() == v.alive.len()
            &&& forall|j: int| 0 <= j < nb && j != i ==> w.dmg[j] == v.dmg[j]
            &&& forall|j: int| 0 <= j < nb && j != i ==> w.cds[j] == v.cds[j]
            &&& (v.fault ==> w == v)
        }),
{
    let w = fire_one(b, i, v, ground, air);
    if !v.fault && spec_damage(b.kind) != 0 && v.cds[i] == 0 && !aim_fault(b, v.alive, ground, air) {
        match target_among(b, v.alive, ground, air, v.alive.len() as int) {
            None => {},
            Some(t) => {
                let tp = enemy_pos(v.alive[t], ground, air);
                lemma_splash_total_bound(b, tp, v.alive, ground, air, v.alive.len() as int);
                assert forall|j: int| 0 <= j < w.alive.len() implies (#[trigger] w.alive[j]).idx <= tick
                    && w.alive[j].acc < spec_move_period(w.alive[j].kind) && w.alive[j].id < next_id by {
                    assert(w.alive[j] == after_hit(b, tp, v.alive[j], ground, air));
                    assert(v.alive[j].idx <= tick);
                }
                assert(spec_cooldown(b.kind) <= 5);
            },
        }
    }
}

proof fn lemma_fire_all_ok(bs: Seq<Building>, n: int, v: Volley, ground: Seq<Pos>, air: Seq<Pos>, nb: int, tick: int, next_id: int, base: int)
    requires
        0 <= n <= nb,
        nb == bs.len(),
        !v.fault,
        volley_ok(v, nb, tick, next_id, base + 45 * v.alive.len()),
        forall|i: int| 0 <= i < nb ==> #[trigger] v.dmg[i] <= base,
    ensures
        ({
            let w = fire_all(bs, n, v, ground, air);
            &&& volley_ok(w, nb, tick, next_id, base + 45 * v.alive.len())
            &&& w.alive.len() == v.alive.len()
            &&& forall|j: int| n <= j < nb ==> w.dmg[j] == v.dmg[j]
        }),
    decreases n,
{
    if n > 0 {
        lemma_fire_all_ok(bs, n - 1, v, ground, air, nb, tick, next_id, base);
        let w0 = fire_all(bs, n - 1, v, ground, air);
        lemma_fire_one_ok(bs[n - 1], n - 1, w0, ground, air, nb, tick, next_id, base + 45 * v.alive.len());
    }
}

proof fn lemma_survivors(alive: Seq<Enemy>, n: int, tick: int, next_id: int)
    requires
        0 <= n <= alive.len(),
        enemies_ok(alive, tick, next_id),
    ensures
        survivors(alive, n).len() + dead_count(alive, n, EnemyKind::Infantry) + dead_count(alive, n, EnemyKind::Armor)
            + dead_count(alive, n, EnemyKind::Flyer) == n,
        enemies_ok(survivors(alive, n), tick, next_id),
        dead_count(alive, n, EnemyKind::Infantry) >= 0,
        dead_count(alive, n, EnemyKind::Armor) >= 0,
        dead_count(alive, n, EnemyKind::Flyer) >= 0,
    decreases n,
{
    if n > 0 {
        lemma_survivors(alive, n - 1, tick, next_id);
        let s0 = survivors(alive, n - 1);
        if alive[n - 1].hp > 0 {
            assert forall|j: int| 0 <= j < s0.push(alive[n - 1]).len() implies (#[trigger] s0.push(alive[n - 1])[j]).idx
                <= tick && s0.push(alive[n - 1])[j].acc < spec_move_period(s0.push(alive[n - 1])[j].kind)
                && s0.push(alive[n - 1])[j].id < next_id by {
                if j < s0.len() {
                    assert(s0.push(alive[n - 1])[j] == s0[j]);
                }
            }
        }
    }
}

proof fn lemma_marched(b: Seq<Enemy>, m: int, ground: Seq<Pos>, air: Seq<Pos>, tick: int, next_id: int)
    requires
        0 <= m <= b.len(),
        enemies_ok(b, tick, next_id),
    ensures
        marched(b, m, ground, air).len() + escape_count(b, m, EnemyKind::Infantry, ground, air) + escape_count(
            b,
            m,
            EnemyKind::Armor,
            ground,
            air,
        ) + escape_count(b, m, EnemyKind::Flyer, ground, air) == m,
        enemies_ok(marched(b, m, ground, air), tick + 1, next_id),
        escape_count(b, m, EnemyKind::Infantry, ground, air) >= 0,
        escape_count(b, m, EnemyKind::Armor, ground, air) >= 0,
        escape_count(b, m, EnemyKind::Flyer, ground, air) >= 0,
        0 <= escape_cost(b, m, ground, air) <= 3 * (escape_count(b, m, EnemyKind::Infantry, ground, air)
            + escape_count(b, m, EnemyKind::Armor, ground, air) + escape_count(b, m, EnemyKind::Flyer, ground, air)),
    decreases m,
{
    if m > 0 {
        lemma_marched(b, m - 1, ground, air, tick, next_id);
        let s0 = marched(b, m - 1, ground, air);
        let e = b[m - 1];
        assert(e.idx <= tick && e.acc < spec_move_period(e.kind) && e.id < next_id);
        if !escapes(e, ground, air) {
            let x = advanced(e);
            assert forall|j: int| 0 <= j < s0.push(x).len() implies (#[trigger] s0.push(x)[j]).idx
                <= tick + 1 && s0.push(x)[j].acc < spec_move_period(s0.push(x)[j].kind)
                && s0.push(x)[j].id < next_id by {
                if j < s0.len() {
                    assert(s0.push(x)[j] == s0[j]);
                }
            }
        }
    }
}

/// Bounds that hold throughout a wave after `tick` ticks.
pub open spec fn sim_ok(s: SimState, nb: int, tick: int) -> bool {
    &&& s.cds.len() == nb
    &&& s.dmg.len() == nb
    &&& s.kills.len() == 3
    &&& s.leaked.len() == 3
    &&& s.next_id <= (tick + 2) / 3
    &&& s.kills[0] + s.kills[1] + s.kills[2] + s.leaked[0] + s.leaked[1] + s.leaked[2] + s.alive.len()
        == s.next_id
    &&& s.lives_lost <= 3 * (s.leaked[0] + s.leaked[1] + s.leaked[2])
    &&& enemies_ok(s.alive, tick, s.next_id as int)
    &&& forall|i: int| 0 <= i < nb ==> #[trigger] s.cds[i] <= 5
    &&& forall|i: int| 0 <= i < nb ==> #[trigger] s.dmg[i] <= 80000 * tick
    &&& s.ticks <= tick
}

#[verifier::rlimit(40)]
proof fn lemma_tick_ok(bs: Seq<Building>, wave: u32, ground: Seq<Pos>, air: Seq<Pos>, s: SimState, tick: int)
    requires
        0 <= tick < MAX_TICKS,
        sim_ok(s, bs.len() as int, tick),
    ensures
        sim_ok(tick_step(bs, wave, ground, air, s, tick), bs.len() as int, tick + 1),
{
    let nb = bs.len() as int;
    let r = tick_step(bs, wave, ground, air, s, tick);
    assert(80000 * tick <= 80000 * (tick + 1));
    if s.done || s.fault {
        assert(enemies_ok(s.alive, tick + 1, s.next_id as int));
    } else if s.queue.len() == 0 && s.alive.len() == 0 {
        assert(enemies_ok(s.alive, tick + 1, s.next_id as int));
    } else {
        let s1 = spawned(s, tick, wave);
        assert(s1.next_id <= (tick + 3) / 3) by {
            if tick % 3 == 0 && s.queue.len() > 0 {
                assert((tick + 2) / 3 == tick / 3);
                assert((tick + 3) / 3 == tick / 3 + 1);
            }
        }
        assert(enemies_ok(s1.alive, tick, s1.next_id as int)) by {
            if tick % 3 == 0 && s.queue.len() > 0 && hp_at_fits(s.queue[s.queue.len() - 1], wave) {
                let x = s1.alive[s1.alive.len() - 1];
                assert forall|j: int| 0 <= j < s1.alive.len() implies (#[trigger] s1.alive[j]).idx <= tick
                    && s1.alive[j].acc < spec_move_period(s1.alive[j].kind) && s1.alive[j].id < s1.next_id by {
                    if j < s.alive.len() {
                        assert(s1.alive[j] == s.alive[j]);
                    }
                }
            }
        }
        if !s1.fault {
            let v0 = Volley { alive: s1.alive, cds: s1.cds, dmg: s1.dmg, fault: false };
            let base = 80000 * tick;
            assert(s1.alive.len() <= 1668) by {
                assert(s1.alive.len() <= s1.next_id);
            }
            lemma_fire_all_ok(bs, nb, v0, ground, air, nb, tick, s1.next_id as int, base);
            let v = fire_all(bs, nb, v0, ground, air);
            if !v.fault {
                let a = v.alive;
                let n = a.len() as int;
                lemma_survivors(a, n, tick, s1.next_id as int);
                let b = survivors(a, n);
                let m = b.len() as int;
                lemma_marched(b, m, ground, air, tick, s1.next_id as int);
                assert(forall|i: int| 0 <= i < nb ==> #[trigger] v.dmg[i] <= 80000 * (tick + 1)) by {
                    assert(base + 45 * v0.alive.len() <= 80000 * (tick + 1));
                }
            }
        }
    }
}

/// The bounds hold at every tick.
pub proof fn lemma_sim_ok(seed: u64, wave: u32, bs: Seq<Building>, ground: Seq<Pos>, air: Seq<Pos>, n: nat)
    requires
        n <= MAX_TICKS,
    ensures
        sim_ok(sim_after(seed, wave, bs, ground, air, n), bs.len() as int, n as int),
    decreases n,
{
    if n == 0 {
        let s = sim_after(seed, wave, bs, ground, air, 0);
        assert(s.kills[0] + s.kills[1] + s.kills[2] + s.leaked[0] + s.leaked[1] + s.leaked[2] + s.alive.len() == 0);
    } else {
        lemma_sim_ok(seed, wave, bs, ground, air, (n - 1) as nat);
        lemma_tick_ok(bs, wave, ground, air, sim_after(seed, wave, bs, ground, air, (n - 1) as nat), n - 1);
    }
}

/// A fault is never undone.
pub proof fn lemma_fault_sticky(seed: u64, wave: u32, bs: Seq<Building>, ground: Seq<Pos>, air: Seq<Pos>, a: nat, b: nat)
    requires
        a <= b,
        sim_after(seed, wave, bs, ground, air, a).fault,
    ensures
        sim_after(seed, wave, bs, ground, air, b).fault,
    decreases b,
{
    if a < b {
        lemma_fault_sticky(seed, wave, bs, ground, air, a, (b - 1) as nat);
    }
}


// ------------------------------------------------------------ spawn order (exec)

/// The unshuffled spawn list of a composition.
fn grouped_list(c: [u32; 3]) -> (v: Vec<EnemyKind>)
    ensures
        v@ == grouped(c@),
{
    let mut v: Vec<EnemyKind> = Vec::new();
    let mut n: u32 = 0;
    while n < c[0]
        invariant
            n <= c[0],
            v@ =~= Seq::new(n as nat, |i: int| EnemyKind::Infantry),
        decreases c[0] - n,
    {
        v.push(EnemyKind::Infantry);
        n += 1;
    }
    let ghost a = v@;
    n = 0;
    while n < c[1]
        invariant
            n <= c[1],
            v@ =~= a + Seq::new(n as nat, |i: int| EnemyKind::Armor),
        decreases c[1] - n,
    {
        v.push(EnemyKind::Armor);
        n += 1;
    }
    let ghost b = v@;
    n = 0;
    while n < c[2]
        invariant
            n <= c[2],
            v@ =~= b + Seq::new(n as nat, |i: int| EnemyKind::Flyer),
        decreases c[2] - n,
    {
        v.push(EnemyKind::Flyer);
        n += 1;
    }
    v
}

/// Shuffled spawn order of a wave (seeded Fisher-Yates).
pub fn spawn_order(seed: u64, wave: u32, comp: [u32; 3]) -> (order: Vec<EnemyKind>)
    ensures
        order@ == spec_spawn_order(seed, wave, comp@),
{
    let mut list = grouped_list(comp);
    let ghost list0 = list@;
    let mut rng = Rng::new(seed ^ ((wave as u64) << 32u64));
    let ghost st0 = rng.state();
    if list.len() > 1 {
        let mut i: usize = list.len() - 1;
        while i > 0
            invariant
                i < list.len(),
                list@.len() == list0.len(),
                shuffle_down(list@, rng.state(), i as int) == shuffle_down(list0, st0, list0.len() - 1),
            decreases i,
        {
            let bound: usize = i + 1;
            let j = rng.below(bound as u64) as usize;
            let a = list[i];
            let b = list[j];
            list.set(i, b);
            list.set(j, a);
            i -= 1;
        }
    }
    list
}


// ------------------------------------------------------------ one tick (exec)

/// Every cell of a path lies on the board.
pub open spec fn cells_in_board(p: Seq<Pos>) -> bool {
    forall|i: int| 0 <= i < p.len() ==> in_board(#[trigger] p[i])
}

/// The optional index as a mathematical integer.
pub open spec fn opt_index(t: Option<usize>) -> Option<int> {
    match t {
        Some(i) => Some(i as int),
        None => None,
    }
}

proof fn lemma_target_among(b: Building, alive: Seq<Enemy>, ground: Seq<Pos>, air: Seq<Pos>, n: int)
    requires
        0 <= n <= alive.len(),
    ensures
        target_among(b, alive, ground, air, n) matches Some(j) ==> 0 <= j < n && in_reach(b, alive[j], ground, air),
    decreases n,
{
    if n > 0 {
        lemma_target_among(b, alive, ground, air, n - 1);
    }
}

/// The cell an enemy stands on.
fn pos_of(e: &Enemy, ground: &Vec<Pos>, air: &Vec<Pos>) -> (p: Pos)
    requires
        route_of(e.kind, ground@, air@).len() > 0,
    ensures
        p == enemy_pos(*e, ground@, air@),
{
    let path = if e.kind == EnemyKind::Flyer {
        air
    } else {
        ground
    };
    if e.idx < path.len() {
        path[e.idx]
    } else {
        path[path.len() - 1]
    }
}

/// Target of a turret: the most advanced enemy in reach, lower id on ties.
fn pick_target(b: &Building, alive: &Vec<Enemy>, ground: &Vec<Pos>, air: &Vec<Pos>) -> (t: Option<usize>)
    requires
        !aim_fault(*b, alive@, ground@, air@),
        in_board(b.pos),
        cells_in_board(ground@),
        cells_in_board(air@),
    ensures
        opt_index(t) == target_among(*b, alive@, ground@, air@, alive@.len() as int),
{
    let st = b.kind.stats();
    let mut best: Option<usize> = None;
    let mut k: usize = 0;
    while k < alive.len()
        invariant
            k <= alive@.len(),
            stats_of(b.kind, st),
            !aim_fault(*b, alive@, ground@, air@),
            in_board(b.pos),
            cells_in_board(ground@),
            cells_in_board(air@),
            opt_index(best) == target_among(*b, alive@, ground@, air@, k as int),
            best matches Some(j) ==> j < k,
        decreases alive@.len() - k,
    {
        let e = alive[k];
        if st.hits_air || e.kind != EnemyKind::Flyer {
            assert(can_hit(b.kind, alive@[k as int]));
            let p = pos_of(&e, ground, air);
            proof {
                let r = route_of(e.kind, ground@, air@);
                assert(in_board(p)) by {
                    if e.idx < r.len() {
                        assert(in_board(r[e.idx as int]));
                    } else {
                        assert(in_board(r[r.len() - 1]));
                    }
                }
                lemma_board_dist_fits(b.pos, p);
            }
            let d = b.pos.dist_sq(p);
            if d <= st.range_sq && d >= st.min_range_sq {
                match best {
                    Some(j) => {
                        let f = alive[j];
                        if e.idx > f.idx || (e.idx == f.idx && e.id <= f.id) {
                            best = Some(k);
                        }
                    },
                    None => {
                        best = Some(k);
                    },
                }
            }
        }
        k += 1;
    }
    best
}


/// Where an enemy stands is a board cell when its path is on the board.
proof fn lemma_enemy_pos_in_board(e: Enemy, ground: Seq<Pos>, air: Seq<Pos>)
    requires
        route_of(e.kind, ground, air).len() > 0,
        cells_in_board(ground),
        cells_in_board(air),
    ensures
        in_board(enemy_pos(e, ground, air)),
{
    let r = route_of(e.kind, ground, air);
    if e.idx < r.len() {
        assert(in_board(r[e.idx as int]));
    } else {
        assert(in_board(r[r.len() - 1]));
    }
}

/// A volley that has not faulted.
pub open spec fn volley_of(alive: Seq<Enemy>, cds: Seq<u32>, dmg: Seq<u32>) -> Volley {
    Volley { alive, cds, dmg, fault: false }
}

/// Building `b` (number `i`) takes its turn to fire.
fn fire_building(
    b: &Building,
    i: usize,
    alive: &mut Vec<Enemy>,
    cds: &mut Vec<u32>,
    dmg: &mut Vec<u32>,
    ground: &Vec<Pos>,
    air: &Vec<Pos>,
)
    requires
        i < old(cds)@.len(),
        old(cds)@.len() == old(dmg)@.len(),
        !fire_one(*b, i as int, volley_of(old(alive)@, old(cds)@, old(dmg)@), ground@, air@).fault,
        old(dmg)@[i as int] + 45 * old(alive)@.len() <= u32::MAX,
        in_board(b.pos),
        cells_in_board(ground@),
        cells_in_board(air@),
    ensures
        ({
            let w = fire_one(*b, i as int, volley_of(old(alive)@, old(cds)@, old(dmg)@), ground@, air@);
            &&& final(alive)@ == w.alive
            &&& final(cds)@ == w.cds
            &&& final(dmg)@ == w.dmg
        }),
        final(alive)@.len() == old(alive)@.len(),
        final(cds)@.len() == old(cds)@.len(),
        final(dmg)@.len() == old(dmg)@.len(),
        forall|j: int| 0 <= j < old(dmg)@.len() && j != i ==> final(dmg)@[j] == old(dmg)@[j],
{
    let ghost v = volley_of(alive@, cds@, dmg@);
    let st = b.kind.stats();
    if st.damage == 0 {
        return;
    }
    if cds[i] > 0 {
        let c = cds[i];
        cds.set(i, c - 1);
        return;
    }
    let t = pick_target(b, alive, ground, air);
    match t {
        None => {},
        Some(t) => {
            proof {
                lemma_target_among(*b, alive@, ground@, air@, alive@.len() as int);
            }
            let tp = pos_of(&alive[t], ground, air);
            proof {
                lemma_enemy_pos_in_board(alive@[t as int], ground@, air@);
                lemma_splash_total_bound(*b, tp, v.alive, ground@, air@, v.alive.len() as int);
            }
            cds.set(i, st.cooldown);
            let mut k: usize = 0;
            let mut total: u32 = dmg[i];
            while k < alive.len()
                invariant
                    stats_of(b.kind, st),
                    alive@.len() == v.alive.len(),
                    k <= alive@.len(),
                    in_board(tp),
                    tp == enemy_pos(v.alive[t as int], ground@, air@),
                    !aim_fault(*b, v.alive, ground@, air@),
                    cells_in_board(ground@),
                    cells_in_board(air@),
                    forall|j: int| 0 <= j < k ==> alive@[j] == after_hit(*b, tp, v.alive[j], ground@, air@),
                    forall|j: int| k <= j < alive@.len() ==> alive@[j] == v.alive[j],
                    total == v.dmg[i as int] + splash_total(*b, tp, v.alive, ground@, air@, k as int),
                    v.dmg[i as int] + 45 * v.alive.len() <= u32::MAX,
                    0 <= splash_total(*b, tp, v.alive, ground@, air@, v.alive.len() as int) <= 45 * v.alive.len(),
                decreases alive@.len() - k,
            {
                proof {
                    lemma_splash_total_bound(*b, tp, v.alive, ground@, air@, k as int + 1);
                }
                let e = alive[k];
                if st.hits_air || e.kind != EnemyKind::Flyer {
                    assert(can_hit(b.kind, v.alive[k as int]));
                    let p = pos_of(&e, ground, air);
                    proof {
                        lemma_enemy_pos_in_board(e, ground@, air@);
                        lemma_board_dist_fits(p, tp);
                    }
                    if p.dist_sq(tp) <= st.splash_sq {
                        let eff = effective_damage(b.kind, e.kind);
                        let dealt = if eff < e.hp {
                            eff
                        } else {
                            e.hp
                        };
                        alive.set(k, Enemy { hp: e.hp - dealt, ..e });
                        total = total + dealt;
                    }
                }
                proof {
                    assert(alive@[k as int] == after_hit(*b, tp, v.alive[k as int], ground@, air@));
                }
                k += 1;
            }
            dmg.set(i, total);
            proof {
                assert(alive@ =~= Seq::new(v.alive.len(), |j: int| after_hit(*b, tp, v.alive[j], ground@, air@)));
            }
        },
    }
}


/// Once a volley faults, it stays faulted.
proof fn lemma_fire_fault_sticky(bs: Seq<Building>, a: int, b: int, v: Volley, ground: Seq<Pos>, air: Seq<Pos>)
    requires
        0 <= a <= b,
        fire_all(bs, a, v, ground, air).fault,
    ensures
        fire_all(bs, b, v, ground, air).fault,
    decreases b,
{
    if a < b {
        lemma_fire_fault_sticky(bs, a, b - 1, v, ground, air);
    }
}

/// Phase 2: every building fires, in order.
fn fire_phase(
    bs: &Vec<Building>,
    alive: &mut Vec<Enemy>,
    cds: &mut Vec<u32>,
    dmg: &mut Vec<u32>,
    ground: &Vec<Pos>,
    air: &Vec<Pos>,
    Ghost(base): Ghost<int>,
)
    requires
        old(cds)@.len() == bs@.len(),
        old(dmg)@.len() == bs@.len(),
        !fire_all(bs@, bs@.len() as int, volley_of(old(alive)@, old(cds)@, old(dmg)@), ground@, air@).fault,
        forall|j: int| 0 <= j < bs@.len() ==> #[trigger] old(dmg)@[j] <= base,
        base + 45 * old(alive)@.len() <= u32::MAX,
        forall|j: int| 0 <= j < bs@.len() ==> in_board(#[trigger] bs@[j].pos),
        cells_in_board(ground@),
        cells_in_board(air@),
    ensures
        ({
            let w = fire_all(bs@, bs@.len() as int, volley_of(old(alive)@, old(cds)@, old(dmg)@), ground@, air@);
            &&& final(alive)@ == w.alive
            &&& final(cds)@ == w.cds
            &&& final(dmg)@ == w.dmg
        }),
{
    let ghost v0 = volley_of(alive@, cds@, dmg@);
    let mut i: usize = 0;
    while i < bs.len()
        invariant
            i <= bs@.len(),
            cds@.len() == bs@.len(),
            dmg@.len() == bs@.len(),
            alive@.len() == v0.alive.len(),
            volley_of(alive@, cds@, dmg@) == fire_all(bs@, i as int, v0, ground@, air@),
            !fire_all(bs@, bs@.len() as int, v0, ground@, air@).fault,
            forall|j: int| i <= j < bs@.len() ==> #[trigger] dmg@[j] == v0.dmg[j],
            forall|j: int| 0 <= j < bs@.len() ==> #[trigger] v0.dmg[j] <= base,
            base + 45 * v0.alive.len() <= u32::MAX,
            forall|j: int| 0 <= j < bs@.len() ==> in_board(#[trigger] bs@[j].pos),
            cells_in_board(ground@),
            cells_in_board(air@),
        decreases bs@.len() - i,
    {
        proof {
            if fire_all(bs@, i as int + 1, v0, ground@, air@).fault {
                lemma_fire_fault_sticky(bs@, i as int + 1, bs@.len() as int, v0, ground@, air@);
            }
            assert(dmg@[i as int] == v0.dmg[i as int]);
        }
        fire_building(&bs[i], i, alive, cds, dmg, ground, air);
        i += 1;
    }
}


/// Phase 3: the dead are removed and counted per kind.
fn remove_dead(alive: &Vec<Enemy>) -> (r: (Vec<Enemy>, u32, u32, u32))
    requires
        alive@.len() < u32::MAX,
    ensures
        r.0@ == survivors(alive@, alive@.len() as int),
        r.1 == dead_count(alive@, alive@.len() as int, EnemyKind::Infantry),
        r.2 == dead_count(alive@, alive@.len() as int, EnemyKind::Armor),
        r.3 == dead_count(alive@, alive@.len() as int, EnemyKind::Flyer),
{
    let mut out: Vec<Enemy> = Vec::new();
    let mut d0: u32 = 0;
    let mut d1: u32 = 0;
    let mut d2: u32 = 0;
    let mut k: usize = 0;
    while k < alive.len()
        invariant
            k <= alive@.len() < u32::MAX,
            out@ == survivors(alive@, k as int),
            d0 == dead_count(alive@, k as int, EnemyKind::Infantry),
            d1 == dead_count(alive@, k as int, EnemyKind::Armor),
            d2 == dead_count(alive@, k as int, EnemyKind::Flyer),
            d0 <= k && d1 <= k && d2 <= k,
        decreases alive@.len() - k,
    {
        let e = alive[k];
        if e.hp == 0 {
            match e.kind {
                EnemyKind::Infantry => d0 += 1,
                EnemyKind::Armor => d1 += 1,
                EnemyKind::Flyer => d2 += 1,
            }
        } else {
            out.push(e);
        }
        k += 1;
    }
    (out, d0, d1, d2)
}

/// Phase 4: enemies move; those reaching the exit leave and are counted.
fn march(b: &Vec<Enemy>, ground: &Vec<Pos>, air: &Vec<Pos>, Ghost(tick): Ghost<int>) -> (r: (Vec<Enemy>, u32, u32, u32, u32))
    requires
        b@.len() < u32::MAX / 4,
        0 <= tick < MAX_TICKS,
        forall|j: int|
            0 <= j < b@.len() ==> (#[trigger] b@[j]).idx <= tick && b@[j].acc < spec_move_period(b@[j].kind),
    ensures
        r.0@ == marched(b@, b@.len() as int, ground@, air@),
        r.1 == escape_count(b@, b@.len() as int, EnemyKind::Infantry, ground@, air@),
        r.2 == escape_count(b@, b@.len() as int, EnemyKind::Armor, ground@, air@),
        r.3 == escape_count(b@, b@.len() as int, EnemyKind::Flyer, ground@, air@),
        r.4 == escape_cost(b@, b@.len() as int, ground@, air@),
{
    let mut out: Vec<Enemy> = Vec::new();
    let mut l0: u32 = 0;
    let mut l1: u32 = 0;
    let mut l2: u32 = 0;
    let mut cost: u32 = 0;
    let mut k: usize = 0;
    while k < b.len()
        invariant
            k <= b@.len() < u32::MAX / 4,
            0 <= tick < MAX_TICKS,
            forall|j: int|
                0 <= j < b@.len() ==> (#[trigger] b@[j]).idx <= tick && b@[j].acc < spec_move_period(b@[j].kind),
            out@ == marched(b@, k as int, ground@, air@),
            l0 == escape_count(b@, k as int, EnemyKind::Infantry, ground@, air@),
            l1 == escape_count(b@, k as int, EnemyKind::Armor, ground@, air@),
            l2 == escape_count(b@, k as int, EnemyKind::Flyer, ground@, air@),
            cost == escape_cost(b@, k as int, ground@, air@),
            l0 <= k && l1 <= k && l2 <= k && cost <= 3 * k,
        decreases b@.len() - k,
    {
        let e = b[k];
        assert(e.idx <= tick && e.acc < spec_move_period(e.kind));
        let path = if e.kind == EnemyKind::Flyer {
            air
        } else {
            ground
        };
        let acc = e.acc + 1;
        if acc < e.kind.move_period() {
            out.push(Enemy { acc, ..e });
        } else {
            let idx = e.idx + 1;
            if path.len() == 0 || idx >= path.len() - 1 {
                match e.kind {
                    EnemyKind::Infantry => l0 += 1,
                    EnemyKind::Armor => l1 += 1,
                    EnemyKind::Flyer => l2 += 1,
                }
                cost += e.kind.lives_cost();
            } else {
                out.push(Enemy { acc: 0, idx, ..e });
            }
        }
        k += 1;
    }
    (out, l0, l1, l2, cost)
}


/// The running state of a wave.
struct Field {
    queue: Vec<EnemyKind>,
    alive: Vec<Enemy>,
    cds: Vec<u32>,
    dmg: Vec<u32>,
    next_id: u32,
    kills: [u32; 3],
    leaked: [u32; 3],
    lives_lost: u32,
    ticks: u32,
    done: bool,
}

impl Field {
    spec fn state(&self) -> SimState {
        SimState {
            queue: self.queue@,
            alive: self.alive@,
            cds: self.cds@,
            dmg: self.dmg@,
            next_id: self.next_id,
            kills: self.kills@,
            leaked: self.leaked@,
            lives_lost: self.lives_lost,
            ticks: self.ticks,
            done: self.done,
            fault: false,
        }
    }
}

/// Everything a wave needs to lie on the board.
pub open spec fn on_board(bs: Seq<Building>, ground: Seq<Pos>, air: Seq<Pos>) -> bool {
    &&& forall|j: int| 0 <= j < bs.len() ==> in_board(#[trigger] bs[j].pos)
    &&& cells_in_board(ground)
    &&& cells_in_board(air)
}

/// One tick of the wave.
#[verifier::rlimit(40)]
fn run_tick(f: &mut Field, bs: &Vec<Building>, wave: u32, ground: &Vec<Pos>, air: &Vec<Pos>, tick: u32)
    requires
        tick < MAX_TICKS,
        !old(f).done,
        sim_ok(old(f).state(), bs@.len() as int, tick as int),
        !tick_step(bs@, wave, ground@, air@, old(f).state(), tick as int).fault,
        on_board(bs@, ground@, air@),
    ensures
        final(f).state() == tick_step(bs@, wave, ground@, air@, old(f).state(), tick as int),
{
    let ghost s = f.state();
    let ghost nb = bs@.len() as int;
    if f.queue.len() == 0 && f.alive.len() == 0 {
        f.done = true;
        f.ticks = tick;
        assert(f.state() =~= tick_step(bs@, wave, ground@, air@, s, tick as int));
        return;
    }
    // 1. Spawn
    if tick % SPAWN_PERIOD == 0 {
        match f.queue.pop() {
            Some(kind) => {
                let hp = kind.hp_at(wave);
                f.alive.push(Enemy { id: f.next_id, kind, hp, idx: 0, acc: 0 });
                f.next_id = f.next_id + 1;
            },
            None => {},
        }
    }
    let ghost s1 = f.state();
    assert(s1 =~= spawned(s, tick as int, wave));
    proof {
        assert(s1.next_id <= (tick + 3) / 3);
        assert(enemies_ok(s1.alive, tick as int, s1.next_id as int)) by {
            assert forall|j: int| 0 <= j < s1.alive.len() implies (#[trigger] s1.alive[j]).idx <= tick
                && s1.alive[j].acc < spec_move_period(s1.alive[j].kind) && s1.alive[j].id < s1.next_id by {
                if j < s.alive.len() {
                    assert(s1.alive[j] == s.alive[j]);
                }
            }
        }
        assert(s1.alive.len() <= s1.next_id);
    }
    // 2. Fire
    let ghost v0 = volley_of(s1.alive, s1.cds, s1.dmg);
    let ghost base = 80000 * tick as int;
    proof {
        lemma_fire_all_ok(bs@, nb, v0, ground@, air@, nb, tick as int, s1.next_id as int, base);
    }
    fire_phase(bs, &mut f.alive, &mut f.cds, &mut f.dmg, ground, air, Ghost(base));
    let ghost v = fire_all(bs@, nb, v0, ground@, air@);
    assert(f.alive@ == v.alive);
    // 3. The dead
    let (b, d0, d1, d2) = remove_dead(&f.alive);
    proof {
        lemma_survivors(v.alive, v.alive.len() as int, tick as int, s1.next_id as int);
    }
    f.kills = [f.kills[0] + d0, f.kills[1] + d1, f.kills[2] + d2];
    // 4. Movement
    let (m, l0, l1, l2, cost) = march(&b, ground, air, Ghost(tick as int));
    proof {
        lemma_marched(b@, b@.len() as int, ground@, air@, tick as int, s1.next_id as int);
    }
    f.alive = m;
    f.leaked = [f.leaked[0] + l0, f.leaked[1] + l1, f.leaked[2] + l2];
    f.lives_lost = f.lives_lost + cost;
    f.ticks = tick + 1;
    proof {
        let c = cleared(s1, v, ground@, air@);
        assert(f.kills@ =~= c.kills);
        assert(f.leaked@ =~= c.leaked);
        assert(f.state() =~= tick_step(bs@, wave, ground@, air@, s, tick as int));
    }
}


/// Once the wave is over, further ticks change nothing.
proof fn lemma_done_sticky(seed: u64, wave: u32, bs: Seq<Building>, ground: Seq<Pos>, air: Seq<Pos>, a: nat, b: nat)
    requires
        a <= b,
        sim_after(seed, wave, bs, ground, air, a).done,
    ensures
        sim_after(seed, wave, bs, ground, air, b) == sim_after(seed, wave, bs, ground, air, a),
    decreases b,
{
    if a < b {
        lemma_done_sticky(seed, wave, bs, ground, air, a, (b - 1) as nat);
    }
}

/// Runs a wave over the given ground and air paths.
fn simulate(seed: u64, wave: u32, bs: &Vec<Building>, ground: &Vec<Pos>, air: &Vec<Pos>) -> (r: WaveReport)
    requires
        on_board(bs@, ground@, air@),
        !sim_after(seed, wave, bs@, ground@, air@, MAX_TICKS as nat).fault,
    ensures
        r@ == report_of(wave, sim_after(seed, wave, bs@, ground@, air@, MAX_TICKS as nat), bs@),
{
    let comp = wave_composition(seed, wave);
    let order = spawn_order(seed, wave, comp);
    // The queue is popped from the back: the first to come stands last.
    let mut queue: Vec<EnemyKind> = Vec::new();
    let mut k: usize = order.len();
    while k > 0
        invariant
            k <= order@.len(),
            queue@ =~= Seq::new((order@.len() - k) as nat, |i: int| order@[order@.len() - 1 - i]),
        decreases k,
    {
        queue.push(order[k - 1]);
        k -= 1;
    }
    assert(queue@ =~= order@.reverse());
    let mut cds: Vec<u32> = Vec::new();
    let mut dmg: Vec<u32> = Vec::new();
    let mut i: usize = 0;
    while i < bs.len()
        invariant
            i <= bs@.len(),
            cds@ =~= Seq::new(i as nat, |j: int| 0u32),
            dmg@ =~= Seq::new(i as nat, |j: int| 0u32),
        decreases bs@.len() - i,
    {
        cds.push(0);
        dmg.push(0);
        i += 1;
    }
    let mut f = Field {
        queue,
        alive: Vec::new(),
        cds,
        dmg,
        next_id: 0,
        kills: [0, 0, 0],
        leaked: [0, 0, 0],
        lives_lost: 0,
        ticks: 0,
        done: false,
    };
    assert(f.state() =~= sim_after(seed, wave, bs@, ground@, air@, 0));
    let mut tick: u32 = 0;
    while tick < MAX_TICKS && !f.done
        invariant
            tick <= MAX_TICKS,
            f.state() == sim_after(seed, wave, bs@, ground@, air@, tick as nat),
            !sim_after(seed, wave, bs@, ground@, air@, MAX_TICKS as nat).fault,
            on_board(bs@, ground@, air@),
        decreases MAX_TICKS - tick,
    {
        proof {
            lemma_sim_ok(seed, wave, bs@, ground@, air@, tick as nat);
            if sim_after(seed, wave, bs@, ground@, air@, tick as nat + 1).fault {
                lemma_fault_sticky(seed, wave, bs@, ground@, air@, tick as nat + 1, MAX_TICKS as nat);
            }
        }
        run_tick(&mut f, bs, wave, ground, air, tick);
        tick += 1;
    }
    proof {
        if f.done {
            lemma_done_sticky(seed, wave, bs@, ground@, air@, tick as nat, MAX_TICKS as nat);
        }
        lemma_sim_ok(seed, wave, bs@, ground@, air@, MAX_TICKS as nat);
    }
    let ghost fin = f.state();
    let mut entries: Vec<(u32, u32)> = Vec::new();
    let mut i: usize = 0;
    while i < bs.len()
        invariant
            i <= bs@.len(),
            f.dmg@.len() == bs@.len(),
            entries@ == damage_entries(bs@, f.dmg@, i as int),
        decreases bs@.len() - i,
    {
        if f.dmg[i] > 0 {
            entries.push((bs[i].id, f.dmg[i]));
        }
        i += 1;
    }
    WaveReport {
        wave,
        kills: f.kills,
        leaked: f.leaked,
        lives_lost: f.lives_lost,
        damage_by_building: entries,
        ticks: f.ticks,
    }
}


// ------------------------------------------------------------ when a wave cannot fail

/// The hit points of every kind at wave `wave` can be computed.
pub open spec fn wave_hp_fits(wave: u32) -> bool {
    &&& hp_at_fits(EnemyKind::Infantry, wave)
    &&& hp_at_fits(EnemyKind::Armor, wave)
    &&& hp_at_fits(EnemyKind::Flyer, wave)
}

proof fn lemma_fire_all_no_fault(bs: Seq<Building>, n: int, v: Volley, ground: Seq<Pos>, air: Seq<Pos>)
    requires
        0 <= n,
        !v.fault,
        ground.len() > 0,
        air.len() > 0,
    ensures
        !fire_all(bs, n, v, ground, air).fault,
    decreases n,
{
    if n > 0 {
        lemma_fire_all_no_fault(bs, n - 1, v, ground, air);
        let w = fire_all(bs, n - 1, v, ground, air);
        assert(!aim_fault(bs[n - 1], w.alive, ground, air));
    }
}

/// With both paths non-empty and hit points computable, a wave never faults.
pub proof fn lemma_no_fault(seed: u64, wave: u32, bs: Seq<Building>, ground: Seq<Pos>, air: Seq<Pos>, n: nat)
    requires
        ground.len() > 0,
        air.len() > 0,
        wave_hp_fits(wave),
    ensures
        !sim_after(seed, wave, bs, ground, air, n).fault,
    decreases n,
{
    if n > 0 {
        lemma_no_fault(seed, wave, bs, ground, air, (n - 1) as nat);
        let s = sim_after(seed, wave, bs, ground, air, (n - 1) as nat);
        let s1 = spawned(s, n - 1, wave);
        lemma_fire_all_no_fault(bs, bs.len() as int, volley_of(s1.alive, s1.cds, s1.dmg), ground, air);
    }
}


/// Simulates the current wave of `game` without changing the game.
pub fn run_wave(game: &Game) -> (r: WaveReport)
    requires
        board_wf(game@),
        wave_hp_fits(game.wave),
    ensures
        r@ == spec_wave_report(game.seed, game.wave, game.entry, game.exit, game.buildings@),
{
    let ground = match game.current_path() {
        Some(p) => p,
        None => Vec::new(),
    };
    proof {
        let bl = walls(game.buildings@);
        assert(exists|w: Seq<Pos>| is_route(bl, game.entry, game.exit, w));
        assert(ground@ == ground_path(game.entry, game.exit, game.buildings@));
        assert(is_walk(bl, ground@));
        assert forall|i: int| 0 <= i < ground@.len() implies in_board(#[trigger] ground@[i]) by {
            assert(free(bl, ground@[i]));
        }
        lemma_board_line(game.entry, game.exit);
    }
    let air = straight_line(game.entry, game.exit);
    proof {
        lemma_no_fault(game.seed, game.wave, game.buildings@, ground@, air@, MAX_TICKS as nat);
        reveal(wave_end);
    }
    simulate(game.seed, game.wave, &game.buildings, &ground, &air)
}


// ------------------------------------------------------------ totals of a wave

proof fn lemma_shuffle_len(list: Seq<EnemyKind>, st: u64, i: int)
    requires
        i < list.len() < u64::MAX,
    ensures
        shuffle_down(list, st, i).len() == list.len(),
    decreases i,
{
    if i > 0 {
        let st2 = xorshift_step(st);
        let j = (xorshift_output(st2) % ((i + 1) as u64)) as int;
        assert(0 <= j < i + 1);
        lemma_shuffle_len(list.update(i, list[j]).update(j, list[i]), st2, i - 1);
    }
}

/// Number of enemies of a wave.
pub open spec fn wave_total(seed: u64, wave: u32) -> int {
    let c = spec_wave_composition(seed, wave);
    c[0] + c[1] + c[2]
}

proof fn lemma_escape_cost(b: Seq<Enemy>, m: int, ground: Seq<Pos>, air: Seq<Pos>)
    requires
        0 <= m <= b.len(),
    ensures
        escape_cost(b, m, ground, air) == escape_count(b, m, EnemyKind::Infantry, ground, air) + 3 * escape_count(
            b,
            m,
            EnemyKind::Armor,
            ground,
            air,
        ) + escape_count(b, m, EnemyKind::Flyer, ground, air),
    decreases m,
{
    if m > 0 {
        lemma_escape_cost(b, m - 1, ground, air);
    }
}

/// Through a wave every enemy is accounted for (still to come, spawned), and
/// the lives lost are those of the leaks: one per infantry or flyer, three per
/// armored vehicle.
pub proof fn lemma_wave_accounting(seed: u64, wave: u32, bs: Seq<Building>, ground: Seq<Pos>, air: Seq<Pos>, n: nat)
    requires
        n <= MAX_TICKS,
    ensures
        ({
            let s = sim_after(seed, wave, bs, ground, air, n);
            &&& s.queue.len() + s.next_id == wave_total(seed, wave)
            &&& s.lives_lost == s.leaked[0] + 3 * s.leaked[1] + s.leaked[2]
        }),
    decreases n,
{
    let s = sim_after(seed, wave, bs, ground, air, n);
    if n == 0 {
        let c = spec_wave_composition(seed, wave);
        let list = grouped(c);
        lemma_shuffle_len(list, seeded_state(order_seed(seed, wave)), list.len() - 1);
    } else {
        let p = sim_after(seed, wave, bs, ground, air, (n - 1) as nat);
        lemma_wave_accounting(seed, wave, bs, ground, air, (n - 1) as nat);
        lemma_sim_ok(seed, wave, bs, ground, air, (n - 1) as nat);
        let tick = n - 1;
        if !p.done && !p.fault && !(p.queue.len() == 0 && p.alive.len() == 0) {
            let s1 = spawned(p, tick, wave);
            if !s1.fault {
                let nb = bs.len() as int;
                let v0 = volley_of(s1.alive, s1.cds, s1.dmg);
                assert(enemies_ok(s1.alive, tick, s1.next_id as int)) by {
                    assert forall|j: int| 0 <= j < s1.alive.len() implies (#[trigger] s1.alive[j]).idx <= tick
                        && s1.alive[j].acc < spec_move_period(s1.alive[j].kind) && s1.alive[j].id < s1.next_id by {
                        if j < p.alive.len() {
                            assert(s1.alive[j] == p.alive[j]);
                        }
                    }
                }
                lemma_fire_all_ok(bs, nb, v0, ground, air, nb, tick, s1.next_id as int, 80000 * tick);
                let v = fire_all(bs, nb, v0, ground, air);
                if !v.fault {
                    let a = v.alive;
                    lemma_survivors(a, a.len() as int, tick, s1.next_id as int);
                    let b = survivors(a, a.len() as int);
                    lemma_marched(b, b.len() as int, ground, air, tick, s1.next_id as int);
                    lemma_escape_cost(b, b.len() as int, ground, air);
                }
            }
        }
    }
}

/// When a wave is over, every enemy of its composition was either killed or leaked.
pub proof fn lemma_wave_conservation(seed: u64, wave: u32, entry: Pos, exit: Pos, bs: Seq<Building>)
    requires
        wave_end(seed, wave, entry, exit, bs).done,
    ensures
        ({
            let s = wave_end(seed, wave, entry, exit, bs);
            s.kills[0] + s.kills[1] + s.kills[2] + s.leaked[0] + s.leaked[1] + s.leaked[2] == wave_total(seed, wave)
        }),
{
    reveal(wave_end);
    let ground = ground_path(entry, exit, bs);
    let air = flight_path(entry, exit);
    lemma_wave_accounting(seed, wave, bs, ground, air, MAX_TICKS as nat);
    lemma_sim_ok(seed, wave, bs, ground, air, MAX_TICKS as nat);
    lemma_done_parts(seed, wave, bs, ground, air, MAX_TICKS as nat);
}

/// A finished wave has nobody left to spawn or on the field.
proof fn lemma_done_parts(seed: u64, wave: u32, bs: Seq<Building>, ground: Seq<Pos>, air: Seq<Pos>, n: nat)
    requires
        sim_after(seed, wave, bs, ground, air, n).done,
    ensures
        sim_after(seed, wave, bs, ground, air, n).queue.len() == 0,
        sim_after(seed, wave, bs, ground, air, n).alive.len() == 0,
    decreases n,
{
    if n > 0 {
        let p = sim_after(seed, wave, bs, ground, air, (n - 1) as nat);
        if p.done {
            lemma_done_parts(seed, wave, bs, ground, air, (n - 1) as nat);
        }
    }
}

/// The lives a wave costs are those of its leaks.
pub proof fn lemma_lives_lost_are_leaks(seed: u64, wave: u32, entry: Pos, exit: Pos, bs: Seq<Building>)
    ensures
        ({
            let r = spec_wave_report(seed, wave, entry, exit, bs);
            r.lives_lost == r.leaked[0] + 3 * r.leaked[1] + r.leaked[2]
        }),
{
    reveal(wave_end);
    lemma_wave_accounting(seed, wave, bs, ground_path(entry, exit, bs), flight_path(entry, exit), MAX_TICKS as nat);
}


// ------------------------------------------------------------ flyers and the sky

/// No building of `bs` can hit the air.
pub open spec fn blind_to_the_sky(bs: Seq<Building>) -> bool {
    forall|i: int| 0 <= i < bs.len() ==> !spec_hits_air(#[trigger] bs[i].kind)
}

/// Every flyer on the field still has its full hit points `h`.
pub open spec fn flyers_untouched(alive: Seq<Enemy>, h: u32) -> bool {
    forall|j: int| 0 <= j < alive.len() && (#[trigger] alive[j]).kind == EnemyKind::Flyer ==> alive[j].hp == h
}

proof fn lemma_fire_all_blind(bs: Seq<Building>, n: int, v: Volley, ground: Seq<Pos>, air: Seq<Pos>, h: u32)
    requires
        0 <= n <= bs.len(),
        blind_to_the_sky(bs),
        flyers_untouched(v.alive, h),
    ensures
        flyers_untouched(fire_all(bs, n, v, ground, air).alive, h),
    decreases n,
{
    if n > 0 {
        lemma_fire_all_blind(bs, n - 1, v, ground, air, h);
        let w = fire_all(bs, n - 1, v, ground, air);
        let b = bs[n - 1];
        assert(!spec_hits_air(b.kind));
        let x = fire_one(b, n - 1, w, ground, air);
        assert forall|j: int| 0 <= j < x.alive.len() && (#[trigger] x.alive[j]).kind == EnemyKind::Flyer implies x.alive[j].hp == h by {
            if x.alive != w.alive {
                let t = target_among(b, w.alive, ground, air, w.alive.len() as int)->0;
                let tp = enemy_pos(w.alive[t], ground, air);
                assert(x.alive[j] == after_hit(b, tp, w.alive[j], ground, air));
            }
        }
    }
}

proof fn lemma_survivors_flyers(alive: Seq<Enemy>, n: int, h: u32)
    requires
        0 <= n <= alive.len(),
        h > 0,
        flyers_untouched(alive, h),
    ensures
        flyers_untouched(survivors(alive, n), h),
        dead_count(alive, n, EnemyKind::Flyer) == 0,
    decreases n,
{
    if n > 0 {
        lemma_survivors_flyers(alive, n - 1, h);
        let s0 = survivors(alive, n - 1);
        if alive[n - 1].hp > 0 {
            assert forall|j: int| 0 <= j < s0.push(alive[n - 1]).len() && (#[trigger] s0.push(alive[n - 1])[j]).kind
                == EnemyKind::Flyer implies s0.push(alive[n - 1])[j].hp == h by {
                if j < s0.len() {
                    assert(s0.push(alive[n - 1])[j] == s0[j]);
                }
            }
        }
    }
}

proof fn lemma_marched_flyers(b: Seq<Enemy>, m: int, ground: Seq<Pos>, air: Seq<Pos>, h: u32)
    requires
        0 <= m <= b.len(),
        flyers_untouched(b, h),
    ensures
        flyers_untouched(marched(b, m, ground, air), h),
    decreases m,
{
    if m > 0 {
        lemma_marched_flyers(b, m - 1, ground, air, h);
        let s0 = marched(b, m - 1, ground, air);
        if !escapes(b[m - 1], ground, air) {
            let x = advanced(b[m - 1]);
            assert forall|j: int| 0 <= j < s0.push(x).len() && (#[trigger] s0.push(x)[j]).kind == EnemyKind::Flyer implies s0.push(x)[j].hp == h by {
                if j < s0.len() {
                    assert(s0.push(x)[j] == s0[j]);
                }
            }
        }
    }
}

proof fn lemma_blind_ticks(seed: u64, wave: u32, bs: Seq<Building>, ground: Seq<Pos>, air: Seq<Pos>, n: nat)
    requires
        n <= MAX_TICKS,
        blind_to_the_sky(bs),
        spec_hp_at(EnemyKind::Flyer, wave) > 0,
    ensures
        flyers_untouched(sim_after(seed, wave, bs, ground, air, n).alive, spec_hp_at(EnemyKind::Flyer, wave)),
        sim_after(seed, wave, bs, ground, air, n).kills[2] == 0,
    decreases n,
{
    let h = spec_hp_at(EnemyKind::Flyer, wave);
    if n > 0 {
        let p = sim_after(seed, wave, bs, ground, air, (n - 1) as nat);
        lemma_blind_ticks(seed, wave, bs, ground, air, (n - 1) as nat);
        lemma_sim_ok(seed, wave, bs, ground, air, (n - 1) as nat);
        let tick = n - 1;
        if !p.done && !p.fault && !(p.queue.len() == 0 && p.alive.len() == 0) {
            let s1 = spawned(p, tick, wave);
            assert(flyers_untouched(s1.alive, h)) by {
                assert forall|j: int| 0 <= j < s1.alive.len() && (#[trigger] s1.alive[j]).kind == EnemyKind::Flyer implies s1.alive[j].hp == h by {
                    if j < p.alive.len() {
                        assert(s1.alive[j] == p.alive[j]);
                    }
                }
            }
            if !s1.fault {
                let nb = bs.len() as int;
                let v0 = volley_of(s1.alive, s1.cds, s1.dmg);
                lemma_fire_all_blind(bs, nb, v0, ground, air, h);
                let v = fire_all(bs, nb, v0, ground, air);
                if !v.fault {
                    let a = v.alive;
                    lemma_survivors_flyers(a, a.len() as int, h);
                    let b = survivors(a, a.len() as int);
                    lemma_marched_flyers(b, b.len() as int, ground, air, h);
                }
            }
        }
    }
}

/// Flyers ignore the maze and only turrets that hit the air touch them: on a
/// board without any, no flyer is ever killed.
pub proof fn lemma_no_sniper_no_flyer_killed(seed: u64, wave: u32, entry: Pos, exit: Pos, bs: Seq<Building>)
    requires
        blind_to_the_sky(bs),
        spec_hp_at(EnemyKind::Flyer, wave) > 0,
    ensures
        spec_wave_report(seed, wave, entry, exit, bs).kills[2] == 0,
{
    reveal(wave_end);
    lemma_blind_ticks(seed, wave, bs, ground_path(entry, exit, bs), flight_path(entry, exit), MAX_TICKS as nat);
}


// ------------------------------------------------------------ the spawn order is the composition

proof fn lemma_shuffle_multiset(list: Seq<EnemyKind>, st: u64, i: int)
    requires
        i < list.len() < u64::MAX,
    ensures
        shuffle_down(list, st, i).to_multiset() == list.to_multiset(),
    decreases i,
{
    broadcast use vstd::seq_lib::to_multiset_update, vstd::multiset::group_multiset_axioms;

    if i > 0 {
        let st2 = xorshift_step(st);
        let j = (xorshift_output(st2) % ((i + 1) as u64)) as int;
        assert(0 <= j < i + 1);
        let l1 = list.update(i, list[j]);
        let l2 = l1.update(j, list[i]);
        assert(l1.to_multiset() == list.to_multiset().insert(list[j]).remove(list[i]));
        assert(l2.to_multiset() == l1.to_multiset().insert(list[i]).remove(l1[j]));
        assert(l1[j] == list[j]);
        assert(list.to_multiset().count(list[i]) > 0) by {
            vstd::seq_lib::to_multiset_contains(list, list[i]);
            assert(list.contains(list[i]));
        }
        assert(l2.to_multiset() =~= list.to_multiset());
        lemma_shuffle_multiset(l2, st2, i - 1);
    }
}

proof fn lemma_repeat_count(n: nat, k: EnemyKind, x: EnemyKind)
    ensures
        Seq::new(n, |i: int| k).to_multiset().count(x) == if x == k {
            n
        } else {
            0
        },
    decreases n,
{
    broadcast use vstd::seq_lib::to_multiset_build, vstd::seq_lib::to_multiset_len, vstd::multiset::group_multiset_axioms;

    if n == 0 {
        assert(Seq::new(n, |i: int| k) =~= Seq::<EnemyKind>::empty());
        vstd::seq_lib::to_multiset_contains(Seq::<EnemyKind>::empty(), x);
    } else {
        let shorter = Seq::new((n - 1) as nat, |i: int| k);
        lemma_repeat_count((n - 1) as nat, k, x);
        assert(Seq::new(n, |i: int| k) =~= shorter.push(k));
        assert(shorter.push(k).to_multiset() =~= shorter.to_multiset().insert(k));
    }
}

/// The spawn order holds exactly the composition of the wave, shuffled: so
/// many infantry, armored vehicles and flyers as announced.
pub proof fn lemma_spawn_order_is_the_composition(seed: u64, wave: u32, c: Seq<u32>)
    requires
        c.len() == 3,
    ensures
        spec_spawn_order(seed, wave, c).to_multiset().count(EnemyKind::Infantry) == c[0],
        spec_spawn_order(seed, wave, c).to_multiset().count(EnemyKind::Armor) == c[1],
        spec_spawn_order(seed, wave, c).to_multiset().count(EnemyKind::Flyer) == c[2],
{
    broadcast use vstd::multiset::group_multiset_axioms;

    let a = Seq::new(c[0] as nat, |i: int| EnemyKind::Infantry);
    let b = Seq::new(c[1] as nat, |i: int| EnemyKind::Armor);
    let f = Seq::new(c[2] as nat, |i: int| EnemyKind::Flyer);
    let list = grouped(c);
    lemma_shuffle_multiset(list, seeded_state(order_seed(seed, wave)), list.len() - 1);
    vstd::seq_lib::lemma_multiset_commutative(a + b, f);
    vstd::seq_lib::lemma_multiset_commutative(a, b);
    lemma_repeat_count(c[0] as nat, EnemyKind::Infantry, EnemyKind::Infantry);
    lemma_repeat_count(c[0] as nat, EnemyKind::Infantry, EnemyKind::Armor);
    lemma_repeat_count(c[0] as nat, EnemyKind::Infantry, EnemyKind::Flyer);
    lemma_repeat_count(c[1] as nat, EnemyKind::Armor, EnemyKind::Infantry);
    lemma_repeat_count(c[1] as nat, EnemyKind::Armor, EnemyKind::Armor);
    lemma_repeat_count(c[1] as nat, EnemyKind::Armor, EnemyKind::Flyer);
    lemma_repeat_count(c[2] as nat, EnemyKind::Flyer, EnemyKind::Infantry);
    lemma_repeat_count(c[2] as nat, EnemyKind::Flyer, EnemyKind::Armor);
    lemma_repeat_count(c[2] as nat, EnemyKind::Flyer, EnemyKind::Flyer);
}



// ------------------------------------------------------------ every enemy of each kind is accounted for

/// Enemies of kind `k` in `a`.
pub open spec fn kind_count(a: Seq<Enemy>, k: EnemyKind) -> int
    decreases a.len(),
{
    if a.len() == 0 {
        0
    } else {
        kind_count(a.drop_last(), k) + if a.last().kind == k {
            1int
        } else {
            0int
        }
    }
}

proof fn lemma_kind_count_push(a: Seq<Enemy>, e: Enemy, k: EnemyKind)
    ensures
        kind_count(a.push(e), k) == kind_count(a, k) + if e.kind == k {
            1int
        } else {
            0int
        },
{
    assert(a.push(e).drop_last() =~= a);
}

/// Sequences whose enemies have the same kinds, one by one, count alike.
proof fn lemma_kind_count_same_kinds(a: Seq<Enemy>, b: Seq<Enemy>, k: EnemyKind)
    requires
        a.len() == b.len(),
        forall|j: int| 0 <= j < a.len() ==> (#[trigger] a[j]).kind == b[j].kind,
    ensures
        kind_count(a, k) == kind_count(b, k),
    decreases a.len(),
{
    if a.len() > 0 {
        lemma_kind_count_same_kinds(a.drop_last(), b.drop_last(), k);
    }
}

/// Firing leaves every enemy's kind as it was.
proof fn lemma_fire_all_kinds(bs: Seq<Building>, n: int, v: Volley, ground: Seq<Pos>, air: Seq<Pos>)
    ensures
        fire_all(bs, n, v, ground, air).alive.len() == v.alive.len(),
        forall|j: int|
            0 <= j < v.alive.len() ==> (#[trigger] fire_all(bs, n, v, ground, air).alive[j]).kind == v.alive[j].kind,
    decreases n,
{
    if n > 0 {
        lemma_fire_all_kinds(bs, n - 1, v, ground, air);
    }
}

/// The first `n` enemies are the survivors and the dead, kind by kind.
proof fn lemma_survivor_kinds(a: Seq<Enemy>, n: int, k: EnemyKind)
    requires
        0 <= n <= a.len(),
    ensures
        kind_count(a.take(n), k) == kind_count(survivors(a, n), k) + dead_count(a, n, k),
    decreases n,
{
    if n > 0 {
        lemma_survivor_kinds(a, n - 1, k);
        assert(a.take(n).drop_last() =~= a.take(n - 1));
        if a[n - 1].hp > 0 {
            lemma_kind_count_push(survivors(a, n - 1), a[n - 1], k);
        }
    } else {
        assert(a.take(0) =~= Seq::<Enemy>::empty());
    }
}

/// The first `m` enemies are those left on the field and those that escaped, kind by kind.
proof fn lemma_marched_kinds(b: Seq<Enemy>, m: int, k: EnemyKind, ground: Seq<Pos>, air: Seq<Pos>)
    requires
        0 <= m <= b.len(),
    ensures
        kind_count(b.take(m), k) == kind_count(marched(b, m, ground, air), k) + escape_count(b, m, k, ground, air),
    decreases m,
{
    if m > 0 {
        lemma_marched_kinds(b, m - 1, k, ground, air);
        assert(b.take(m).drop_last() =~= b.take(m - 1));
        if !escapes(b[m - 1], ground, air) {
            lemma_kind_count_push(marched(b, m - 1, ground, air), advanced(b[m - 1]), k);
        }
    } else {
        assert(b.take(0) =~= Seq::<Enemy>::empty());
    }
}

/// Of kind `k`, every enemy of the composition `c` is still to come, killed,
/// leaked or on the field.
pub open spec fn kind_accounted(s: SimState, c: Seq<u32>, k: EnemyKind) -> bool {
    s.queue.to_multiset().count(k) + s.kills[spec_enemy_index(k)] + s.leaked[spec_enemy_index(k)] + kind_count(
        s.alive,
        k,
    ) == c[spec_enemy_index(k)]
}

/// A tick keeps every enemy of kind `k` accounted for.
#[verifier::rlimit(60)]
proof fn lemma_tick_kinds(
    bs: Seq<Building>,
    wave: u32,
    ground: Seq<Pos>,
    air: Seq<Pos>,
    s: SimState,
    tick: int,
    c: Seq<u32>,
    k: EnemyKind,
)
    requires
        0 <= tick < MAX_TICKS,
        sim_ok(s, bs.len() as int, tick),
        kind_accounted(s, c, k),
    ensures
        kind_accounted(tick_step(bs, wave, ground, air, s, tick), c, k),
{
    broadcast use vstd::seq_lib::to_multiset_build, vstd::multiset::group_multiset_axioms;

    let nb = bs.len() as int;
    lemma_tick_ok(bs, wave, ground, air, s, tick);
    let r = tick_step(bs, wave, ground, air, s, tick);
    if !(s.done || s.fault) && !(s.queue.len() == 0 && s.alive.len() == 0) {
        let s1 = spawned(s, tick, wave);
        let i = spec_enemy_index(k);
        assert(kind_accounted(s1, c, k)) by {
            if tick % 3 == 0 && s.queue.len() > 0 && hp_at_fits(s.queue[s.queue.len() - 1], wave) {
                let q = s.queue;
                let x = q[q.len() - 1];
                assert(q.drop_last().push(x) =~= q);
                lemma_kind_count_push(s.alive, Enemy { id: s.next_id, kind: x, hp: spec_hp_at(x, wave), idx: 0, acc: 0 }, k);
            }
        }
        if !s1.fault {
            let v0 = Volley { alive: s1.alive, cds: s1.cds, dmg: s1.dmg, fault: false };
            let v = fire_all(bs, nb, v0, ground, air);
            if !v.fault {
                lemma_fire_all_kinds(bs, nb, v0, ground, air);
                let a = v.alive;
                let n = a.len() as int;
                lemma_kind_count_same_kinds(a, s1.alive, k);
                lemma_survivor_kinds(a, n, k);
                assert(a.take(n) =~= a);
                let b = survivors(a, n);
                let m = b.len() as int;
                lemma_marched_kinds(b, m, k, ground, air);
                assert(b.take(m) =~= b);
                assert(s.next_id <= 1700);
                assert(s.kills[i] <= s.next_id && s.leaked[i] <= s.next_id);
                assert(s1.kills == s.kills && s1.leaked == s.leaked);
                assert(s1.alive.len() <= s.alive.len() + 1);
                assert(s.alive.len() <= s.next_id);
                assert(kind_count(s1.alive, k) <= s1.alive.len()) by {
                    lemma_kind_count_bound(s1.alive, k);
                }
                lemma_dead_bound(a, n, k);
                lemma_escape_bound(b, m, k, ground, air);
                lemma_survivors_len(a, n);
                let r2 = cleared(s1, v, ground, air);
                assert(r2.kills[i] == s1.kills[i] + dead_count(a, n, k)) by {
                    match k {
                        EnemyKind::Infantry => {},
                        EnemyKind::Armor => {},
                        EnemyKind::Flyer => {},
                    }
                }
                assert(r2.leaked[i] == s1.leaked[i] + escape_count(b, m, k, ground, air)) by {
                    match k {
                        EnemyKind::Infantry => {},
                        EnemyKind::Armor => {},
                        EnemyKind::Flyer => {},
                    }
                }
                assert(r.queue == s1.queue && r.alive == marched(b, m, ground, air));
                assert(r.kills == r2.kills && r.leaked == r2.leaked);
            }
        }
    }
}

proof fn lemma_kind_count_bound(a: Seq<Enemy>, k: EnemyKind)
    ensures
        0 <= kind_count(a, k) <= a.len(),
    decreases a.len(),
{
    if a.len() > 0 {
        lemma_kind_count_bound(a.drop_last(), k);
    }
}

proof fn lemma_survivors_len(a: Seq<Enemy>, n: int)
    requires
        0 <= n <= a.len(),
    ensures
        survivors(a, n).len() <= n,
    decreases n,
{
    if n > 0 {
        lemma_survivors_len(a, n - 1);
    }
}

proof fn lemma_dead_bound(a: Seq<Enemy>, n: int, k: EnemyKind)
    requires
        0 <= n <= a.len(),
    ensures
        0 <= dead_count(a, n, k) <= n,
    decreases n,
{
    if n > 0 {
        lemma_dead_bound(a, n - 1, k);
    }
}

proof fn lemma_escape_bound(b: Seq<Enemy>, m: int, k: EnemyKind, ground: Seq<Pos>, air: Seq<Pos>)
    requires
        0 <= m <= b.len(),
    ensures
        0 <= escape_count(b, m, k, ground, air) <= m,
    decreases m,
{
    if m > 0 {
        lemma_escape_bound(b, m - 1, k, ground, air);
    }
}


proof fn lemma_sim_kinds(seed: u64, wave: u32, bs: Seq<Building>, ground: Seq<Pos>, air: Seq<Pos>, n: nat, k: EnemyKind)
    requires
        n <= MAX_TICKS,
    ensures
        kind_accounted(sim_after(seed, wave, bs, ground, air, n), spec_wave_composition(seed, wave), k),
    decreases n,
{
    let c = spec_wave_composition(seed, wave);
    if n == 0 {
        let order = spec_spawn_order(seed, wave, c);
        order.lemma_reverse_to_multiset();
        lemma_spawn_order_is_the_composition(seed, wave, c);
        assert(kind_count(Seq::<Enemy>::empty(), k) == 0);
        match k {
            EnemyKind::Infantry => {},
            EnemyKind::Armor => {},
            EnemyKind::Flyer => {},
        }
    } else {
        lemma_sim_kinds(seed, wave, bs, ground, air, (n - 1) as nat, k);
        lemma_sim_ok(seed, wave, bs, ground, air, (n - 1) as nat);
        lemma_tick_kinds(bs, wave, ground, air, sim_after(seed, wave, bs, ground, air, (n - 1) as nat), n - 1, c, k);
    }
}

/// When a wave is over, every enemy of each kind of its composition was
/// either killed or leaked.
pub proof fn lemma_wave_conservation_by_kind(seed: u64, wave: u32, entry: Pos, exit: Pos, bs: Seq<Building>, k: EnemyKind)
    requires
        wave_end(seed, wave, entry, exit, bs).done,
    ensures
        ({
            let s = wave_end(seed, wave, entry, exit, bs);
            let i = spec_enemy_index(k);
            s.kills[i] + s.leaked[i] == spec_wave_composition(seed, wave)[i]
        }),
{
    reveal(wave_end);
    let ground = ground_path(entry, exit, bs);
    let air = flight_path(entry, exit);
    lemma_sim_kinds(seed, wave, bs, ground, air, MAX_TICKS as nat, k);
    lemma_done_parts(seed, wave, bs, ground, air, MAX_TICKS as nat);
    let s = sim_after(seed, wave, bs, ground, air, MAX_TICKS as nat);
    assert(s.queue.to_multiset().count(k) == 0) by {
        assert(s.queue =~= Seq::<EnemyKind>::empty());
        broadcast use vstd::seq_lib::to_multiset_len;
        vstd::seq_lib::to_multiset_contains(s.queue, k);
    }
    assert(s.alive =~= Seq::<Enemy>::empty());
}



// ------------------------------------------------------------ a turret rests between two shots

/// Another turret's turn leaves turret `i` as it was.
proof fn lemma_fire_one_other(b: Building, j: int, v: Volley, ground: Seq<Pos>, air: Seq<Pos>, i: int)
    requires
        i != j,
        0 <= i < v.cds.len(),
        0 <= i < v.dmg.len(),
        0 <= j < v.cds.len(),
        0 <= j < v.dmg.len(),
    ensures
        fire_one(b, j, v, ground, air).cds.len() == v.cds.len(),
        fire_one(b, j, v, ground, air).dmg.len() == v.dmg.len(),
        fire_one(b, j, v, ground, air).cds[i] == v.cds[i],
        fire_one(b, j, v, ground, air).dmg[i] == v.dmg[i],
{
}

/// Turret `i`'s own turn: any damage it deals sets its cooldown to that of
/// its type; while its cooldown runs it deals none, and the cooldown goes
/// down by one at most.
proof fn lemma_fire_one_self(b: Building, i: int, v: Volley, ground: Seq<Pos>, air: Seq<Pos>)
    requires
        0 <= i < v.cds.len(),
        0 <= i < v.dmg.len(),
    ensures
        ({
            let w = fire_one(b, i, v, ground, air);
            &&& w.cds.len() == v.cds.len()
            &&& w.dmg.len() == v.dmg.len()
            &&& w.dmg[i] != v.dmg[i] ==> w.cds[i] == spec_cooldown(b.kind)
            &&& v.cds[i] > 0 ==> w.dmg[i] == v.dmg[i] && w.cds[i] >= v.cds[i] - 1
        }),
{
}

/// The firing phase, seen from turret `i`.
proof fn lemma_fire_all_turret(bs: Seq<Building>, n: int, v: Volley, ground: Seq<Pos>, air: Seq<Pos>, i: int)
    requires
        0 <= n <= bs.len(),
        v.cds.len() == bs.len(),
        v.dmg.len() == bs.len(),
        0 <= i < bs.len(),
    ensures
        ({
            let w = fire_all(bs, n, v, ground, air);
            &&& w.cds.len() == bs.len()
            &&& w.dmg.len() == bs.len()
            &&& n <= i ==> w.cds[i] == v.cds[i] && w.dmg[i] == v.dmg[i]
            &&& n > i ==> (w.dmg[i] != v.dmg[i] ==> w.cds[i] == spec_cooldown(bs[i].kind))
            &&& n > i ==> (v.cds[i] > 0 ==> w.dmg[i] == v.dmg[i] && w.cds[i] >= v.cds[i] - 1)
        }),
    decreases n,
{
    if n > 0 {
        lemma_fire_all_turret(bs, n - 1, v, ground, air, i);
        let w0 = fire_all(bs, n - 1, v, ground, air);
        if n - 1 == i {
            lemma_fire_one_self(bs[i], i, w0, ground, air);
        } else {
            lemma_fire_one_other(bs[n - 1], n - 1, w0, ground, air, i);
        }
    }
}

/// A tick, seen from turret `i`.
proof fn lemma_tick_turret(bs: Seq<Building>, wave: u32, ground: Seq<Pos>, air: Seq<Pos>, s: SimState, tick: int, i: int)
    requires
        s.cds.len() == bs.len(),
        s.dmg.len() == bs.len(),
        0 <= i < bs.len(),
    ensures
        ({
            let r = tick_step(bs, wave, ground, air, s, tick);
            &&& r.cds.len() == bs.len()
            &&& r.dmg.len() == bs.len()
            &&& r.dmg[i] != s.dmg[i] ==> r.cds[i] == spec_cooldown(bs[i].kind)
            &&& s.cds[i] > 0 ==> r.dmg[i] == s.dmg[i] && r.cds[i] >= s.cds[i] - 1
        }),
{
    if !(s.done || s.fault) && !(s.queue.len() == 0 && s.alive.len() == 0) {
        let s1 = spawned(s, tick, wave);
        assert(s1.cds == s.cds && s1.dmg == s.dmg);
        if !s1.fault {
            let v0 = Volley { alive: s1.alive, cds: s1.cds, dmg: s1.dmg, fault: false };
            lemma_fire_all_turret(bs, bs.len() as int, v0, ground, air, i);
        }
    }
}

/// Every state of a wave has a cooldown and a damage total per turret.
proof fn lemma_sim_lengths(seed: u64, wave: u32, bs: Seq<Building>, ground: Seq<Pos>, air: Seq<Pos>, n: nat)
    ensures
        sim_after(seed, wave, bs, ground, air, n).cds.len() == bs.len(),
        sim_after(seed, wave, bs, ground, air, n).dmg.len() == bs.len(),
    decreases n,
{
    if n > 0 {
        lemma_sim_lengths(seed, wave, bs, ground, air, (n - 1) as nat);
        if bs.len() > 0 {
            lemma_tick_turret(bs, wave, ground, air, sim_after(seed, wave, bs, ground, air, (n - 1) as nat), (n - 1) as int, 0);
        } else {
            let s = sim_after(seed, wave, bs, ground, air, (n - 1) as nat);
            if !(s.done || s.fault) && !(s.queue.len() == 0 && s.alive.len() == 0) {
                let s1 = spawned(s, (n - 1) as int, wave);
                if !s1.fault {
                    let v0 = Volley { alive: s1.alive, cds: s1.cds, dmg: s1.dmg, fault: false };
                    assert(fire_all(bs, 0, v0, ground, air) == v0);
                }
            }
        }
    }
}

/// `e` ticks after turret `i` dealt damage, its cooldown still covers the
/// rest of its rest.
proof fn lemma_resting(seed: u64, wave: u32, bs: Seq<Building>, ground: Seq<Pos>, air: Seq<Pos>, i: int, n: nat, e: nat)
    requires
        0 <= i < bs.len(),
        1 <= e <= spec_cooldown(bs[i].kind),
        sim_after(seed, wave, bs, ground, air, n + 1).dmg[i] != sim_after(seed, wave, bs, ground, air, n).dmg[i],
    ensures
        sim_after(seed, wave, bs, ground, air, n + e).cds[i] >= spec_cooldown(bs[i].kind) - e + 1,
    decreases e,
{
    lemma_sim_lengths(seed, wave, bs, ground, air, n);
    if e == 1 {
        lemma_tick_turret(bs, wave, ground, air, sim_after(seed, wave, bs, ground, air, n), n as int, i);
    } else {
        lemma_resting(seed, wave, bs, ground, air, i, n, (e - 1) as nat);
        lemma_sim_lengths(seed, wave, bs, ground, air, (n + e - 1) as nat);
        lemma_tick_turret(bs, wave, ground, air, sim_after(seed, wave, bs, ground, air, (n + e - 1) as nat), (n + e - 1) as int, i);
        assert(sim_after(seed, wave, bs, ground, air, n + e) == tick_step(bs, wave, ground, air, sim_after(seed, wave, bs, ground, air, (n + e - 1) as nat), (n + e - 1) as int));
    }
}

/// A turret rests between two shots: after a tick in which turret `i` dealt
/// damage, it deals none during the next `cooldown` ticks of its type, so it
/// fires at most once every `cooldown + 1` ticks.
pub proof fn lemma_turret_rests_after_firing(
    seed: u64,
    wave: u32,
    bs: Seq<Building>,
    ground: Seq<Pos>,
    air: Seq<Pos>,
    i: int,
    n: nat,
    d: nat,
)
    requires
        0 <= i < bs.len(),
        1 <= d <= spec_cooldown(bs[i].kind),
        sim_after(seed, wave, bs, ground, air, n + 1).dmg[i] != sim_after(seed, wave, bs, ground, air, n).dmg[i],
    ensures
        sim_after(seed, wave, bs, ground, air, n + d + 1).dmg[i] == sim_after(seed, wave, bs, ground, air, n + d).dmg[i],
{
    lemma_resting(seed, wave, bs, ground, air, i, n, d);
    lemma_sim_lengths(seed, wave, bs, ground, air, n + d);
    lemma_tick_turret(bs, wave, ground, air, sim_after(seed, wave, bs, ground, air, n + d), (n + d) as int, i);
    assert(sim_after(seed, wave, bs, ground, air, n + d + 1) == tick_step(bs, wave, ground, air, sim_after(seed, wave, bs, ground, air, n + d), (n + d) as int));
}

} // verus!
