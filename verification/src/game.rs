//! The game: state, rules of the preparation round, and wave resolution.
//!
//! The same seed and the same sequence of actions give the same game, bit for
//! bit: every transition below is a function of the state and the action.
use vstd::prelude::*;
use vstd::set_lib::{set_int_range, lemma_int_range, lemma_len_subset};
use crate::types::{
    Pos, Building, BuildingType, EnemyKind, Phase, ErrorCode, Action, in_board, spec_cost, spec_income, BOARD_W, BOARD_H,
    START_GOLD, START_LIVES, BASE_INCOME, MOVES_PER_ROUND, ACTION_LIMIT,
};
use crate::waves::{Composition, wave_composition, spec_wave_composition};
use crate::path::{shortest_path, best_route, is_route, is_best_route, path_view, cell_of, indexable, free, blocked_cell, lemma_cell_roundtrip, step_dir, CELLS};
use crate::sim::{WaveReport, ReportView, walls, ground_path, spec_wave_report, wave_hp_fits, run_wave};

verus! {

// ------------------------------------------------------------ metrics

/// Counters of the benchmark metrics.
#[derive(Clone, Debug)]
pub struct Metrics {
    /// Errors per code, in order of first occurrence.
    pub errors: Vec<(ErrorCode, u32)>,
    pub moves_used: u32,
    pub gold_refunded: u32,
    pub forced_end_turns: u32,
}

/// The content of the metrics.
#[verifier::ext_equal]
pub struct MetricsView {
    pub errors: Seq<(ErrorCode, u32)>,
    pub moves_used: u32,
    pub gold_refunded: u32,
    pub forced_end_turns: u32,
}

impl View for Metrics {
    type V = MetricsView;

    open spec fn view(&self) -> MetricsView {
        MetricsView {
            errors: self.errors@,
            moves_used: self.moves_used,
            gold_refunded: self.gold_refunded,
            forced_end_turns: self.forced_end_turns,
        }
    }
}

/// Index of the first entry for `code` among the first `n` entries.
pub open spec fn code_index(errs: Seq<(ErrorCode, u32)>, code: ErrorCode, n: int) -> Option<int>
    decreases n,
{
    if n <= 0 {
        None
    } else {
        match code_index(errs, code, n - 1) {
            Some(i) => Some(i),
            None => if errs[n - 1].0 == code {
                Some(n - 1)
            } else {
                None
            },
        }
    }
}

/// The error counts after one more error `code`.
pub open spec fn counted(errs: Seq<(ErrorCode, u32)>, code: ErrorCode) -> Seq<(ErrorCode, u32)> {
    match code_index(errs, code, errs.len() as int) {
        Some(i) => errs.update(i, (code, (errs[i].1 + 1) as u32)),
        None => errs.push((code, 1u32)),
    }
}

/// Counting one more error `code` does not overflow.
pub open spec fn count_fits(errs: Seq<(ErrorCode, u32)>, code: ErrorCode) -> bool {
    match code_index(errs, code, errs.len() as int) {
        Some(i) => errs[i].1 < u32::MAX,
        None => true,
    }
}

/// The number of errors `code` recorded.
pub open spec fn error_count(errs: Seq<(ErrorCode, u32)>, code: ErrorCode) -> u32 {
    match code_index(errs, code, errs.len() as int) {
        Some(i) => errs[i].1,
        None => 0,
    }
}

proof fn lemma_code_index_stable(errs: Seq<(ErrorCode, u32)>, code: ErrorCode, m: int, n: int)
    requires
        0 <= m <= n,
        code_index(errs, code, m) is Some,
    ensures
        code_index(errs, code, n) == code_index(errs, code, m),
    decreases n,
{
    if m < n {
        lemma_code_index_stable(errs, code, m, n - 1);
    }
}

impl Default for Metrics {
    fn default() -> (m: Self)
        ensures
            m@.errors == Seq::<(ErrorCode, u32)>::empty(),
            m.moves_used == 0,
            m.gold_refunded == 0,
            m.forced_end_turns == 0,
    {
        Metrics { errors: Vec::new(), moves_used: 0, gold_refunded: 0, forced_end_turns: 0 }
    }
}

impl Metrics {
    /// Records one more error `code`.
    fn count(&mut self, code: ErrorCode)
        requires
            count_fits(old(self)@.errors, code),
        ensures
            final(self)@ == (MetricsView { errors: counted(old(self)@.errors, code), ..old(self)@ }),
    {
        let mut i: usize = 0;
        while i < self.errors.len()
            invariant
                i <= self.errors@.len(),
                self@ == old(self)@,
                count_fits(self@.errors, code),
                code_index(self.errors@, code, i as int) is None,
            decreases self.errors@.len() - i,
        {
            if self.errors[i].0 == code {
                proof {
                    lemma_code_index_stable(self.errors@, code, i as int + 1, self.errors@.len() as int);
                }
                let n = self.errors[i].1;
                self.errors.set(i, (code, n + 1));
                return;
            }
            i += 1;
        }
        self.errors.push((code, 1));
    }

    /// How many errors `code` were recorded.
    pub fn get(&self, code: ErrorCode) -> (n: u32)
        ensures
            n == error_count(self@.errors, code),
    {
        let mut i: usize = 0;
        while i < self.errors.len()
            invariant
                i <= self.errors@.len(),
                code_index(self.errors@, code, i as int) is None,
            decreases self.errors@.len() - i,
        {
            if self.errors[i].0 == code {
                proof {
                    lemma_code_index_stable(self.errors@, code, i as int + 1, self.errors@.len() as int);
                }
                return self.errors[i].1;
            }
            i += 1;
        }
        0
    }
}


// ------------------------------------------------------------ the game

/// A game in progress.
pub struct Game {
    pub seed: u64,
    pub wave: u32,
    pub phase: Phase,
    pub lives: u32,
    pub gold: u32,
    pub entry: Pos,
    pub exit: Pos,
    pub buildings: Vec<Building>,
    pub moves_remaining: u32,
    pub actions_used: u32,
    pub last_report: Option<WaveReport>,
    pub metrics: Metrics,
    /// The id the next building will get.
    pub next_id: u32,
}

/// The content of a game.
#[verifier::ext_equal]
pub struct GameView {
    pub seed: u64,
    pub wave: u32,
    pub phase: Phase,
    pub lives: u32,
    pub gold: u32,
    pub entry: Pos,
    pub exit: Pos,
    pub buildings: Seq<Building>,
    pub moves_remaining: u32,
    pub actions_used: u32,
    pub last_report: Option<ReportView>,
    pub metrics: MetricsView,
    /// The id the next building will get.
    pub next_id: u32,
}

/// The view of an optional wave report.
pub open spec fn report_view(r: Option<WaveReport>) -> Option<ReportView> {
    match r {
        Some(w) => Some(w@),
        None => None,
    }
}

impl View for Game {
    type V = GameView;

    open spec fn view(&self) -> GameView {
        GameView {
            seed: self.seed,
            wave: self.wave,
            phase: self.phase,
            lives: self.lives,
            gold: self.gold,
            entry: self.entry,
            exit: self.exit,
            buildings: self.buildings@,
            moves_remaining: self.moves_remaining,
            actions_used: self.actions_used,
            last_report: report_view(self.last_report),
            metrics: self.metrics@,
            next_id: self.next_id,
        }
    }
}

/// Whether some route leads from `from` to `to` around the blocked cells.
pub open spec fn route_exists(from: Pos, to: Pos, blocked: Seq<Pos>) -> bool {
    exists|w: Seq<Pos>| is_route(blocked, from, to, w)
}

/// Index of the first building at `p` among the first `n`.
pub open spec fn pos_index(bs: Seq<Building>, p: Pos, n: int) -> Option<int>
    decreases n,
{
    if n <= 0 {
        None
    } else {
        match pos_index(bs, p, n - 1) {
            Some(i) => Some(i),
            None => if bs[n - 1].pos == p {
                Some(n - 1)
            } else {
                None
            },
        }
    }
}

/// Index of the first building with id `id` among the first `n`.
pub open spec fn id_index(bs: Seq<Building>, id: u32, n: int) -> Option<int>
    decreases n,
{
    if n <= 0 {
        None
    } else {
        match id_index(bs, id, n - 1) {
            Some(i) => Some(i),
            None => if bs[n - 1].id == id {
                Some(n - 1)
            } else {
                None
            },
        }
    }
}

/// Whether a building stands on `p`.
pub open spec fn is_occupied(bs: Seq<Building>, p: Pos) -> bool {
    pos_index(bs, p, bs.len() as int) is Some
}

/// Total income of the buildings among the first `n`.
pub open spec fn building_income(bs: Seq<Building>, n: int) -> int
    decreases n,
{
    if n <= 0 {
        0
    } else {
        building_income(bs, n - 1) + spec_income(bs[n - 1].kind)
    }
}

/// Income per wave: the base income plus that of the buildings.
pub open spec fn spec_game_income(bs: Seq<Building>) -> int {
    BASE_INCOME + building_income(bs, bs.len() as int)
}

/// The invariant of a game: its board is sound, and a preparation round has
/// action credit left.
pub open spec fn game_wf(g: GameView) -> bool {
    &&& board_wf(g)
    &&& g.phase == Phase::Preparation ==> g.actions_used < ACTION_LIMIT
}

/// The board of a game is sound: everything stands on the board, ids are
/// unique and below the next id, no two buildings share a cell, and the exit
/// is reachable.
pub open spec fn board_wf(g: GameView) -> bool {
    &&& in_board(g.entry)
    &&& in_board(g.exit)
    &&& forall|i: int| 0 <= i < g.buildings.len() ==> in_board(#[trigger] g.buildings[i].pos)
    &&& forall|i: int| 0 <= i < g.buildings.len() ==> #[trigger] g.buildings[i].id < g.next_id
    &&& forall|i: int, j: int|
        0 <= i < j < g.buildings.len() ==> #[trigger] g.buildings[i].id != #[trigger] g.buildings[j].id
    &&& forall|i: int, j: int|
        0 <= i < j < g.buildings.len() ==> #[trigger] g.buildings[i].pos != #[trigger] g.buildings[j].pos
    &&& route_exists(g.entry, g.exit, walls(g.buildings))
}

/// Entry and exit of every board.
pub open spec fn spec_entry() -> Pos {
    Pos { x: 0, y: (BOARD_H / 2 - 1) as i32 }
}

pub open spec fn spec_exit() -> Pos {
    Pos { x: (BOARD_W - 1) as i32, y: (BOARD_H / 2) as i32 }
}

/// A new game of seed `seed`.
pub open spec fn spec_new_game(seed: u64) -> GameView {
    GameView {
        seed,
        wave: 1,
        phase: Phase::Preparation,
        lives: START_LIVES,
        gold: START_GOLD,
        entry: spec_entry(),
        exit: spec_exit(),
        buildings: seq![],
        moves_remaining: MOVES_PER_ROUND,
        actions_used: 0,
        last_report: None,
        metrics: MetricsView { errors: seq![], moves_used: 0, gold_refunded: 0, forced_end_turns: 0 },
        next_id: 1,
    }
}

/// On an empty board the exit is reachable: straight right, then one step down.
proof fn lemma_empty_board_open()
    ensures
        route_exists(spec_entry(), spec_exit(), seq![]),
{
    let w = Seq::new(11, |i: int| if i < 10 { Pos { x: i as i32, y: 4 } } else { Pos { x: 9, y: 5 } });
    let bl: Seq<Pos> = seq![];
    assert forall|i: int| 0 <= i < w.len() implies free(bl, #[trigger] w[i]) by {
        assert(!blocked_cell(bl, cell_of(w[i])));
    }
    assert forall|i: int| 0 <= i < w.len() - 1 implies step_dir(#[trigger] w[i], w[i + 1]) >= 0 by {
        if i < 9 {
            assert(step_dir(w[i], w[i + 1]) == 0);
        } else {
            assert(step_dir(w[i], w[i + 1]) == 1);
        }
    }
    assert(is_route(bl, spec_entry(), spec_exit(), w));
}

/// A new game is sound.
pub(crate) proof fn lemma_new_game_wf(seed: u64)
    ensures
        game_wf(spec_new_game(seed)),
{
    lemma_empty_board_open();
    assert(walls(spec_new_game(seed).buildings) =~= seq![]);
}

impl Game {
    pub fn new(seed: u64) -> (g: Self)
        ensures
            g@ == spec_new_game(seed),
            game_wf(g@),
    {
        let entry = Pos::new(0, BOARD_H / 2 - 1);
        let exit = Pos::new(BOARD_W - 1, BOARD_H / 2);
        let g = Game {
            seed,
            wave: 1,
            phase: Phase::Preparation,
            lives: START_LIVES,
            gold: START_GOLD,
            entry,
            exit,
            buildings: Vec::new(),
            moves_remaining: MOVES_PER_ROUND,
            actions_used: 0,
            last_report: None,
            metrics: Metrics::default(),
            next_id: 1,
        };
        proof {
            lemma_empty_board_open();
            assert(walls(g.buildings@) =~= seq![]);
        }
        assert(g@ =~= spec_new_game(seed));
        g
    }
}


/// The path can be searched: the entry is on the board, and the exit and the
/// buildings have cells in the board array.
pub open spec fn searchable(g: GameView) -> bool {
    &&& in_board(g.entry)
    &&& indexable(g.exit)
    &&& forall|i: int| 0 <= i < g.buildings.len() ==> indexable(#[trigger] g.buildings[i].pos)
}

/// The building found at an optional reference.
pub open spec fn opt_building(r: Option<&Building>) -> Option<Building> {
    match r {
        Some(b) => Some(*b),
        None => None,
    }
}

/// Buildings on distinct board cells are at most as many as the cells.
proof fn lemma_building_count(bs: Seq<Building>)
    requires
        forall|i: int| 0 <= i < bs.len() ==> in_board(#[trigger] bs[i].pos),
        forall|i: int, j: int| 0 <= i < j < bs.len() ==> #[trigger] bs[i].pos != #[trigger] bs[j].pos,
    ensures
        bs.len() <= CELLS,
{
    let cells = Seq::new(bs.len(), |i: int| cell_of(bs[i].pos));
    assert forall|i: int, j: int| 0 <= i < cells.len() && 0 <= j < cells.len() && i != j implies cells[i]
        != cells[j] by {
        lemma_cell_roundtrip(bs[i].pos);
        lemma_cell_roundtrip(bs[j].pos);
        if i < j {
            assert(bs[i].pos != bs[j].pos);
        } else {
            assert(bs[j].pos != bs[i].pos);
        }
    }
    assert(cells.no_duplicates());
    cells.unique_seq_to_set();
    assert forall|c: int| cells.to_set().contains(c) implies set_int_range(0, CELLS as int).contains(c) by {
        let i = choose|i: int| 0 <= i < cells.len() && cells[i] == c;
        lemma_cell_roundtrip(bs[i].pos);
    }
    lemma_int_range(0, CELLS as int);
    lemma_len_subset(cells.to_set(), set_int_range(0, CELLS as int));
}

proof fn lemma_income_bound(bs: Seq<Building>, n: int)
    requires
        0 <= n <= bs.len(),
    ensures
        0 <= building_income(bs, n) <= 8 * n,
    decreases n,
{
    if n > 0 {
        lemma_income_bound(bs, n - 1);
    }
}

proof fn lemma_income_prefix(bs: Seq<Building>, m: int, n: int)
    requires
        0 <= m <= n <= bs.len(),
    ensures
        building_income(bs, m) <= building_income(bs, n),
    decreases n,
{
    if m < n {
        lemma_income_prefix(bs, m, n - 1);
    }
}

/// The income of a well-formed game fits in a `u32` with room to spare.
pub proof fn lemma_income_fits(g: GameView)
    requires
        board_wf(g),
    ensures
        spec_game_income(g.buildings) <= BASE_INCOME + 8 * CELLS,
{
    lemma_building_count(g.buildings);
    lemma_income_bound(g.buildings, g.buildings.len() as int);
}

impl Game {
    /// Gold earned at the end of each survived wave.
    pub fn income(&self) -> (r: u32)
        requires
            spec_game_income(self@.buildings) <= u32::MAX,
        ensures
            r == spec_game_income(self@.buildings),
    {
        let mut sum: u32 = 0;
        let mut i: usize = 0;
        while i < self.buildings.len()
            invariant
                i <= self.buildings@.len(),
                sum == building_income(self.buildings@, i as int),
                spec_game_income(self.buildings@) <= u32::MAX,
            decreases self.buildings@.len() - i,
        {
            proof {
                lemma_income_prefix(self.buildings@, i as int + 1, self.buildings@.len() as int);
            }
            sum = sum + self.buildings[i].kind.stats().income;
            i += 1;
        }
        BASE_INCOME + sum
    }

    /// The building standing on `p`, if any.
    pub fn building_at(&self, p: Pos) -> (r: Option<&Building>)
        ensures
            opt_building(r) == (match pos_index(self@.buildings, p, self@.buildings.len() as int) {
                Some(i) => Some(self@.buildings[i]),
                None => None,
            }),
    {
        let mut i: usize = 0;
        while i < self.buildings.len()
            invariant
                i <= self.buildings@.len(),
                pos_index(self.buildings@, p, i as int) is None,
            decreases self.buildings@.len() - i,
        {
            if self.buildings[i].pos == p {
                proof {
                    lemma_pos_index_stable(self.buildings@, p, i as int + 1, self.buildings@.len() as int);
                }
                return Some(&self.buildings[i]);
            }
            i += 1;
        }
        None
    }

    /// Whether a building stands on `p`.
    pub fn occupied(&self, p: Pos) -> (r: bool)
        ensures
            r == is_occupied(self@.buildings, p),
    {
        self.building_at(p).is_some()
    }

    fn in_bounds(&self, p: Pos) -> (r: bool)
        ensures
            r == in_board(p),
    {
        p.x >= 0 && p.y >= 0 && p.x < BOARD_W && p.y < BOARD_H
    }

    /// The positions of the buildings: the walls of the maze.
    fn wall_list(&self) -> (v: Vec<Pos>)
        ensures
            v@ == walls(self@.buildings),
    {
        let mut v: Vec<Pos> = Vec::new();
        let mut i: usize = 0;
        while i < self.buildings.len()
            invariant
                i <= self.buildings@.len(),
                v@ =~= walls(self.buildings@).take(i as int),
            decreases self.buildings@.len() - i,
        {
            v.push(self.buildings[i].pos);
            i += 1;
        }
        v
    }

    /// The current path from entry to exit; `None` when the exit is cut off.
    pub fn current_path(&self) -> (r: Option<Vec<Pos>>)
        requires
            searchable(self@),
        ensures
            path_view(r) == best_route(self@.entry, self@.exit, walls(self@.buildings)),
            r matches Some(w) ==> is_best_route(walls(self@.buildings), self@.entry, self@.exit, w@),
    {
        let blocked = self.wall_list();
        proof {
            assert forall|i: int| 0 <= i < blocked@.len() implies indexable(#[trigger] blocked@[i]) by {
                assert(blocked@[i] == self.buildings@[i].pos);
            }
        }
        shortest_path(self.entry, self.exit, blocked.as_slice())
    }

    /// Composition of wave `wave`, derived from the seed alone.
    pub fn composition(&self, wave: u32) -> (c: Composition)
        ensures
            c@ == spec_wave_composition(self.seed, wave),
    {
        wave_composition(self.seed, wave)
    }

    /// The score: the wave reached.
    pub fn score(&self) -> (s: u32)
        ensures
            s == self.wave,
    {
        self.wave
    }
}

proof fn lemma_pos_index_stable(bs: Seq<Building>, p: Pos, m: int, n: int)
    requires
        0 <= m <= n,
        pos_index(bs, p, m) is Some,
    ensures
        pos_index(bs, p, n) == pos_index(bs, p, m),
    decreases n,
{
    if m < n {
        lemma_pos_index_stable(bs, p, m, n - 1);
    }
}


// ------------------------------------------------------------ rules of the actions

/// Why a building cannot be placed on `pos`, if it cannot.
pub open spec fn placement_error(g: GameView, pos: Pos) -> Option<ErrorCode> {
    if !in_board(pos) || pos == g.entry || pos == g.exit {
        Some(ErrorCode::InvalidCell)
    } else if is_occupied(g.buildings, pos) {
        Some(ErrorCode::CellOccupied)
    } else {
        None
    }
}

/// Positions of the first `n` buildings, leaving out those with id `removed`.
pub open spec fn kept_walls(bs: Seq<Building>, removed: Option<u32>, n: int) -> Seq<Pos>
    decreases n,
{
    if n <= 0 {
        seq![]
    } else if Some(bs[n - 1].id) != removed {
        kept_walls(bs, removed, n - 1).push(bs[n - 1].pos)
    } else {
        kept_walls(bs, removed, n - 1)
    }
}

/// Whether the exit stays reachable once building `removed` leaves and a
/// building arrives on `added`.
pub open spec fn survives(g: GameView, added: Option<Pos>, removed: Option<u32>) -> bool {
    let kept = kept_walls(g.buildings, removed, g.buildings.len() as int);
    route_exists(
        g.entry,
        g.exit,
        match added {
            Some(p) => kept.push(p),
            None => kept,
        },
    )
}

/// An outcome of an action: the new game and the answer.
pub type Outcome = (GameView, Result<(), ErrorCode>);

/// Building `kind` on `pos`.
pub open spec fn spec_build(g: GameView, kind: BuildingType, pos: Pos) -> Outcome {
    match placement_error(g, pos) {
        Some(e) => (g, Err(e)),
        None => if g.gold < spec_cost(kind) {
            (g, Err(ErrorCode::InsufficientGold))
        } else if !survives(g, Some(pos), None) {
            (g, Err(ErrorCode::PathBlocked))
        } else {
            (
                GameView {
                    gold: (g.gold - spec_cost(kind)) as u32,
                    next_id: (g.next_id + 1) as u32,
                    buildings: g.buildings.push(Building { id: g.next_id, kind, pos, damage_dealt: 0 }),
                    ..g
                },
                Ok(()),
            )
        },
    }
}

/// A build that succeeds can number the new building.
pub open spec fn build_fits(g: GameView, kind: BuildingType, pos: Pos) -> bool {
    spec_build(g, kind, pos).1 is Ok ==> g.next_id < u32::MAX
}

/// The refund of a sold building: half its cost.
pub open spec fn refund_of(b: Building) -> u32 {
    (spec_cost(b.kind) / 2) as u32
}

/// Selling building `id`.
pub open spec fn spec_sell(g: GameView, id: u32) -> Outcome {
    match id_index(g.buildings, id, g.buildings.len() as int) {
        None => (g, Err(ErrorCode::UnknownBuilding)),
        Some(i) => {
            let refund = refund_of(g.buildings[i]);
            (
                GameView {
                    buildings: g.buildings.remove(i),
                    gold: (g.gold + refund) as u32,
                    metrics: MetricsView { gold_refunded: (g.metrics.gold_refunded + refund) as u32, ..g.metrics },
                    ..g
                },
                Ok(()),
            )
        },
    }
}

pub open spec fn sell_fits(g: GameView, id: u32) -> bool {
    match id_index(g.buildings, id, g.buildings.len() as int) {
        None => true,
        Some(i) => g.gold + refund_of(g.buildings[i]) <= u32::MAX && g.metrics.gold_refunded + refund_of(
            g.buildings[i],
        ) <= u32::MAX,
    }
}

/// Moving building `id` to `pos`.
pub open spec fn spec_move(g: GameView, id: u32, pos: Pos) -> Outcome {
    match id_index(g.buildings, id, g.buildings.len() as int) {
        None => (g, Err(ErrorCode::UnknownBuilding)),
        Some(i) => if g.moves_remaining == 0 {
            (g, Err(ErrorCode::NoMovesLeft))
        } else {
            match placement_error(g, pos) {
                Some(e) => (g, Err(e)),
                None => if !survives(g, Some(pos), Some(id)) {
                    (g, Err(ErrorCode::PathBlocked))
                } else {
                    (
                        GameView {
                            buildings: g.buildings.update(i, Building { pos, ..g.buildings[i] }),
                            moves_remaining: (g.moves_remaining - 1) as u32,
                            metrics: MetricsView { moves_used: (g.metrics.moves_used + 1) as u32, ..g.metrics },
                            ..g
                        },
                        Ok(()),
                    )
                },
            }
        },
    }
}

pub open spec fn move_fits(g: GameView, id: u32, pos: Pos) -> bool {
    spec_move(g, id, pos).1 is Ok ==> g.metrics.moves_used < u32::MAX
}

/// The buildings after crediting the first `n` damage entries of a report
/// (each to the first building with that id).
pub open spec fn credited(bs: Seq<Building>, entries: Seq<(u32, u32)>, n: int) -> Seq<Building>
    decreases n,
{
    if n <= 0 {
        bs
    } else {
        let prev = credited(bs, entries, n - 1);
        match id_index(prev, entries[n - 1].0, prev.len() as int) {
            Some(j) => prev.update(
                j,
                Building { damage_dealt: (prev[j].damage_dealt + entries[n - 1].1) as u32, ..prev[j] },
            ),
            None => prev,
        }
    }
}

/// No credited damage total overflows.
pub open spec fn credit_fits(bs: Seq<Building>, entries: Seq<(u32, u32)>, n: int) -> bool
    decreases n,
{
    if n <= 0 {
        true
    } else {
        let prev = credited(bs, entries, n - 1);
        &&& credit_fits(bs, entries, n - 1)
        &&& match id_index(prev, entries[n - 1].0, prev.len() as int) {
            Some(j) => prev[j].damage_dealt + entries[n - 1].1 <= u32::MAX,
            None => true,
        }
    }
}

/// The report of the current wave of a game.
pub open spec fn current_report(g: GameView) -> ReportView {
    spec_wave_report(g.seed, g.wave, g.entry, g.exit, g.buildings)
}

/// The game after its current wave: losses, damage credit, then either the
/// end of the game or the next preparation round with its income.
pub open spec fn spec_resolve(g: GameView) -> GameView {
    let r = current_report(g);
    let lives = if g.lives > r.lives_lost {
        (g.lives - r.lives_lost) as u32
    } else {
        0u32
    };
    let bs = credited(g.buildings, r.damage_by_building, r.damage_by_building.len() as int);
    let g1 = GameView { lives, buildings: bs, last_report: Some(r), ..g };
    if lives == 0 {
        GameView { phase: Phase::GameOver, ..g1 }
    } else {
        GameView {
            wave: (g.wave + 1) as u32,
            gold: (g.gold + spec_game_income(bs)) as u32,
            moves_remaining: MOVES_PER_ROUND,
            actions_used: 0,
            ..g1
        }
    }
}

/// Resolving the wave overflows nothing and every hit point is computable.
pub open spec fn resolve_fits(g: GameView) -> bool {
    let r = current_report(g);
    let bs = credited(g.buildings, r.damage_by_building, r.damage_by_building.len() as int);
    &&& wave_hp_fits(g.wave)
    &&& credit_fits(g.buildings, r.damage_by_building, r.damage_by_building.len() as int)
    &&& spec_resolve(g).lives > 0 ==> g.wave < u32::MAX && g.gold + spec_game_income(bs) <= u32::MAX
}

/// Carrying out an action in the preparation round.
pub open spec fn spec_try(g: GameView, a: Action) -> Outcome {
    match a {
        Action::Build { kind, pos } => spec_build(g, kind, pos),
        Action::Sell { id } => spec_sell(g, id),
        Action::Move { id, pos } => spec_move(g, id, pos),
        Action::EndTurn => (spec_resolve(g), Ok(())),
    }
}

pub open spec fn try_fits(g: GameView, a: Action) -> bool {
    match a {
        Action::Build { kind, pos } => build_fits(g, kind, pos),
        Action::Sell { id } => sell_fits(g, id),
        Action::Move { id, pos } => move_fits(g, id, pos),
        Action::EndTurn => resolve_fits(g),
    }
}

/// The game with one more error `code` counted.
pub open spec fn with_error(g: GameView, code: ErrorCode) -> GameView {
    GameView { metrics: MetricsView { errors: counted(g.metrics.errors, code), ..g.metrics }, ..g }
}

/// The game after the attempt itself: one action credit spent, the action
/// carried out, its error counted.
pub open spec fn attempted(g: GameView, a: Action) -> Outcome {
    let g1 = GameView { actions_used: (g.actions_used + 1) as u32, ..g };
    let (g2, res) = spec_try(g1, a);
    match res {
        Err(c) => (with_error(g2, c), res),
        Ok(()) => (g2, res),
    }
}

/// Whether the round is closed on the spot: still preparing, no credit left.
pub open spec fn forced(g: GameView) -> bool {
    g.phase == Phase::Preparation && g.actions_used >= ACTION_LIMIT
}

/// The game after a forced end of turn was recorded.
pub open spec fn with_forced(g: GameView) -> GameView {
    GameView { metrics: MetricsView { forced_end_turns: (g.metrics.forced_end_turns + 1) as u32, ..g.metrics }, ..g }
}

/// Applying an action. Every attempt, failed ones included, spends an action
/// credit; once the credit of the round is spent the round is closed.
pub open spec fn spec_apply(g: GameView, a: Action) -> Outcome {
    if g.phase != Phase::Preparation {
        (with_error(g, ErrorCode::WrongPhase), Err(ErrorCode::WrongPhase))
    } else {
        let (g3, res) = attempted(g, a);
        if forced(g3) {
            (spec_resolve(with_forced(g3)), res)
        } else {
            (g3, res)
        }
    }
}

/// Applying the action overflows nothing and every hit point is computable.
pub open spec fn apply_fits(g: GameView, a: Action) -> bool {
    if g.phase != Phase::Preparation {
        count_fits(g.metrics.errors, ErrorCode::WrongPhase)
    } else {
        let g1 = GameView { actions_used: (g.actions_used + 1) as u32, ..g };
        let (g2, res) = spec_try(g1, a);
        let (g3, _) = attempted(g, a);
        &&& try_fits(g1, a)
        &&& (res matches Err(c) ==> count_fits(g2.metrics.errors, c))
        &&& (forced(g3) ==> g3.metrics.forced_end_turns < u32::MAX && resolve_fits(with_forced(g3)))
    }
}


// ------------------------------------------------------------ the board stays sound

/// Fewer walls never close a route.
proof fn lemma_route_fewer_walls(from: Pos, to: Pos, b1: Seq<Pos>, b2: Seq<Pos>)
    requires
        route_exists(from, to, b1),
        forall|c: int| #[trigger] blocked_cell(b2, c) ==> blocked_cell(b1, c),
    ensures
        route_exists(from, to, b2),
{
    let w = choose|w: Seq<Pos>| is_route(b1, from, to, w);
    assert forall|i: int| 0 <= i < w.len() implies free(b2, #[trigger] w[i]) by {
        assert(free(b1, w[i]));
    }
    assert(is_route(b2, from, to, w));
}

/// A position among the walls marks its cell as blocked.
proof fn lemma_blocked_at(bl: Seq<Pos>, k: int)
    requires
        0 <= k < bl.len(),
    ensures
        blocked_cell(bl, cell_of(bl[k])),
{
}

proof fn lemma_kept_all(bs: Seq<Building>, n: int)
    requires
        0 <= n <= bs.len(),
    ensures
        kept_walls(bs, None, n) == walls(bs).take(n),
    decreases n,
{
    if n > 0 {
        lemma_kept_all(bs, n - 1);
        assert(walls(bs).take(n) =~= walls(bs).take(n - 1).push(bs[n - 1].pos));
    }
}

/// Every building not removed has its position among the kept walls.
proof fn lemma_kept_walls(bs: Seq<Building>, removed: Option<u32>, n: int)
    requires
        0 <= n <= bs.len(),
    ensures
        forall|j: int| 0 <= j < n && Some(bs[j].id) != removed ==> exists|k: int| 0 <= k < kept_walls(bs, removed, n).len() && #[trigger] kept_walls(bs, removed, n)[k] == bs[j].pos,
    decreases n,
{
    if n > 0 {
        lemma_kept_walls(bs, removed, n - 1);
        let prev = kept_walls(bs, removed, n - 1);
        let cur = kept_walls(bs, removed, n);
        if Some(bs[n - 1].id) != removed {
            assert forall|j: int| 0 <= j < n && Some(bs[j].id) != removed implies exists|k: int| 0 <= k < cur.len() && #[trigger] cur[k] == bs[j].pos by {
                if j == n - 1 {
                    assert(cur[cur.len() - 1] == bs[j].pos);
                } else {
                    let k = choose|k: int| 0 <= k < prev.len() && #[trigger] prev[k] == bs[j].pos;
                    assert(cur[k] == bs[j].pos);
                }
            }
        }
    }
}

pub proof fn lemma_pos_index(bs: Seq<Building>, p: Pos, n: int)
    requires
        0 <= n <= bs.len(),
    ensures
        pos_index(bs, p, n) matches Some(i) ==> 0 <= i < n && bs[i].pos == p,
        pos_index(bs, p, n) is None ==> forall|j: int| 0 <= j < n ==> (#[trigger] bs[j]).pos != p,
    decreases n,
{
    if n > 0 {
        lemma_pos_index(bs, p, n - 1);
    }
}

pub proof fn lemma_id_index(bs: Seq<Building>, id: u32, n: int)
    requires
        0 <= n <= bs.len(),
    ensures
        id_index(bs, id, n) matches Some(i) ==> 0 <= i < n && bs[i].id == id,
        id_index(bs, id, n) is None ==> forall|j: int| 0 <= j < n ==> (#[trigger] bs[j]).id != id,
    decreases n,
{
    if n > 0 {
        lemma_id_index(bs, id, n - 1);
    }
}

/// A successful build keeps the board sound.
pub proof fn lemma_build_keeps_board(g: GameView, kind: BuildingType, pos: Pos)
    requires
        board_wf(g),
        build_fits(g, kind, pos),
    ensures
        board_wf(spec_build(g, kind, pos).0),
{
    let (h, r) = spec_build(g, kind, pos);
    if r is Ok {
        let bs = g.buildings;
        let n = bs.len() as int;
        lemma_pos_index(bs, pos, n);
        lemma_kept_all(bs, n);
        assert(walls(bs).take(n) =~= walls(bs));
        assert(walls(h.buildings) =~= walls(bs).push(pos));
        assert forall|i: int, j: int| 0 <= i < j < h.buildings.len() implies #[trigger] h.buildings[i].pos
            != #[trigger] h.buildings[j].pos by {
            if j == n {
                assert(bs[i].pos != pos);
            }
        }
        assert forall|i: int, j: int| 0 <= i < j < h.buildings.len() implies #[trigger] h.buildings[i].id
            != #[trigger] h.buildings[j].id by {
            if j == n {
                assert(bs[i].id < g.next_id);
            }
        }
    }
}

/// A sale keeps the board sound: one wall less never closes the exit.
pub proof fn lemma_sell_keeps_board(g: GameView, id: u32)
    requires
        board_wf(g),
    ensures
        board_wf(spec_sell(g, id).0),
{
    let bs = g.buildings;
    let n = bs.len() as int;
    lemma_id_index(bs, id, n);
    match id_index(bs, id, n) {
        None => {},
        Some(i) => {
            let nb = bs.remove(i);
            let w1 = walls(bs);
            let w2 = walls(nb);
            assert forall|c: int| #[trigger] blocked_cell(w2, c) implies blocked_cell(w1, c) by {
                let k = choose|k: int| 0 <= k < w2.len() && cell_of(#[trigger] w2[k]) == c;
                if k < i {
                    assert(w2[k] == w1[k]);
                    lemma_blocked_at(w1, k);
                } else {
                    assert(w2[k] == w1[k + 1]);
                    lemma_blocked_at(w1, k + 1);
                }
            }
            lemma_route_fewer_walls(g.entry, g.exit, w1, w2);
            assert forall|a: int, b: int| 0 <= a < b < nb.len() implies #[trigger] nb[a].pos != #[trigger] nb[b].pos by {
                let a1 = if a < i { a } else { a + 1 };
                let b1 = if b < i { b } else { b + 1 };
                assert(nb[a] == bs[a1] && nb[b] == bs[b1]);
                assert(bs[a1].pos != bs[b1].pos);
            }
            assert forall|a: int, b: int| 0 <= a < b < nb.len() implies #[trigger] nb[a].id != #[trigger] nb[b].id by {
                let a1 = if a < i { a } else { a + 1 };
                let b1 = if b < i { b } else { b + 1 };
                assert(nb[a] == bs[a1] && nb[b] == bs[b1]);
                assert(bs[a1].id != bs[b1].id);
            }
            assert forall|a: int| 0 <= a < nb.len() implies in_board(#[trigger] nb[a].pos) && nb[a].id < g.next_id by {
                let a1 = if a < i { a } else { a + 1 };
                assert(nb[a] == bs[a1]);
            }
        },
    }
}

/// A successful move keeps the board sound.
pub proof fn lemma_move_keeps_board(g: GameView, id: u32, pos: Pos)
    requires
        board_wf(g),
    ensures
        board_wf(spec_move(g, id, pos).0),
{
    let bs = g.buildings;
    let n = bs.len() as int;
    lemma_id_index(bs, id, n);
    lemma_pos_index(bs, pos, n);
    let (h, r) = spec_move(g, id, pos);
    if r is Ok {
        let i = id_index(bs, id, n)->0;
        let nb = h.buildings;
        let kept = kept_walls(bs, Some(id), n);
        let b1 = kept.push(pos);
        let w2 = walls(nb);
        lemma_kept_walls(bs, Some(id), n);
        assert forall|c: int| #[trigger] blocked_cell(w2, c) implies blocked_cell(b1, c) by {
            let k = choose|k: int| 0 <= k < w2.len() && cell_of(#[trigger] w2[k]) == c;
            if k == i {
                assert(b1[kept.len() as int] == pos);
                lemma_blocked_at(b1, kept.len() as int);
            } else {
                assert(w2[k] == bs[k].pos);
                assert(bs[k].id != bs[i].id);
                let m = choose|m: int| 0 <= m < kept.len() && #[trigger] kept[m] == bs[k].pos;
                assert(b1[m] == bs[k].pos);
                lemma_blocked_at(b1, m);
            }
        }
        lemma_route_fewer_walls(g.entry, g.exit, b1, w2);
        assert forall|a: int, b: int| 0 <= a < b < nb.len() implies #[trigger] nb[a].pos != #[trigger] nb[b].pos by {
            if a != i && b != i {
                assert(bs[a].pos != bs[b].pos);
            }
        }
        assert forall|a: int, b: int| 0 <= a < b < nb.len() implies #[trigger] nb[a].id != #[trigger] nb[b].id by {
            assert(bs[a].id != bs[b].id);
        }
    }
}


/// Crediting damage changes nothing but the damage totals.
pub(crate) proof fn lemma_credited_frame(bs: Seq<Building>, entries: Seq<(u32, u32)>, n: int)
    requires
        0 <= n <= entries.len(),
    ensures
        credited(bs, entries, n).len() == bs.len(),
        forall|i: int|
            0 <= i < bs.len() ==> (#[trigger] credited(bs, entries, n)[i]).pos == bs[i].pos
                && credited(bs, entries, n)[i].id == bs[i].id && credited(bs, entries, n)[i].kind == bs[i].kind,
    decreases n,
{
    if n > 0 {
        lemma_credited_frame(bs, entries, n - 1);
        let prev = credited(bs, entries, n - 1);
        lemma_id_index(prev, entries[n - 1].0, prev.len() as int);
    }
}

proof fn lemma_income_same_kinds(a: Seq<Building>, b: Seq<Building>, n: int)
    requires
        0 <= n <= a.len(),
        a.len() == b.len(),
        forall|i: int| 0 <= i < a.len() ==> (#[trigger] a[i]).kind == b[i].kind,
    ensures
        building_income(a, n) == building_income(b, n),
    decreases n,
{
    if n > 0 {
        lemma_income_same_kinds(a, b, n - 1);
    }
}

/// Resolving a wave keeps the board and opens a fresh round, or ends the game.
pub proof fn lemma_resolve_keeps_game(g: GameView)
    requires
        board_wf(g),
    ensures
        game_wf(spec_resolve(g)),
        spec_resolve(g).buildings.len() == g.buildings.len(),
        walls(spec_resolve(g).buildings) == walls(g.buildings),
        spec_game_income(spec_resolve(g).buildings) == spec_game_income(g.buildings),
{
    let r = current_report(g);
    let bs = g.buildings;
    let nb = credited(bs, r.damage_by_building, r.damage_by_building.len() as int);
    lemma_credited_frame(bs, r.damage_by_building, r.damage_by_building.len() as int);
    assert(walls(nb) =~= walls(bs));
    lemma_income_same_kinds(nb, bs, bs.len() as int);
    assert forall|a: int, b: int| 0 <= a < b < nb.len() implies #[trigger] nb[a].pos != #[trigger] nb[b].pos by {
        assert(bs[a].pos != bs[b].pos);
    }
    assert forall|a: int, b: int| 0 <= a < b < nb.len() implies #[trigger] nb[a].id != #[trigger] nb[b].id by {
        assert(bs[a].id != bs[b].id);
    }
    assert forall|a: int| 0 <= a < nb.len() implies in_board(#[trigger] nb[a].pos) && nb[a].id < g.next_id by {
        assert(in_board(bs[a].pos) && bs[a].id < g.next_id);
    }
}


// ------------------------------------------------------------ actions (exec)

/// The answer of a placement check.
pub open spec fn placement_result(g: GameView, pos: Pos) -> Result<(), ErrorCode> {
    match placement_error(g, pos) {
        Some(e) => Err(e),
        None => Ok(()),
    }
}

/// Credits `dmg` to the first building with id `id`, if any.
fn credit_damage(bs: &mut Vec<Building>, id: u32, dmg: u32)
    requires
        id_index(old(bs)@, id, old(bs)@.len() as int) matches Some(j) ==> old(bs)@[j].damage_dealt + dmg <= u32::MAX,
    ensures
        final(bs)@ == (match id_index(old(bs)@, id, old(bs)@.len() as int) {
            Some(j) => old(bs)@.update(j, Building { damage_dealt: (old(bs)@[j].damage_dealt + dmg) as u32, ..old(bs)@[j] }),
            None => old(bs)@,
        }),
{
    let mut j: usize = 0;
    while j < bs.len()
        invariant
            j <= bs@.len(),
            bs@ == old(bs)@,
            id_index(bs@, id, j as int) is None,
            id_index(bs@, id, bs@.len() as int) matches Some(k) ==> bs@[k].damage_dealt + dmg <= u32::MAX,
        decreases bs@.len() - j,
    {
        if bs[j].id == id {
            proof {
                lemma_id_index_stable(bs@, id, j as int + 1, bs@.len() as int);
            }
            let b = bs[j];
            bs.set(j, Building { damage_dealt: b.damage_dealt + dmg, ..b });
            return;
        }
        j += 1;
    }
}

proof fn lemma_id_index_stable(bs: Seq<Building>, id: u32, m: int, n: int)
    requires
        0 <= m <= n,
        id_index(bs, id, m) is Some,
    ensures
        id_index(bs, id, n) == id_index(bs, id, m),
    decreases n,
{
    if m < n {
        lemma_id_index_stable(bs, id, m, n - 1);
    }
}

impl Game {
    fn check_placement(&self, pos: Pos) -> (r: Result<(), ErrorCode>)
        ensures
            r == placement_result(self@, pos),
    {
        if !self.in_bounds(pos) || pos == self.entry || pos == self.exit {
            return Err(ErrorCode::InvalidCell);
        }
        if self.occupied(pos) {
            return Err(ErrorCode::CellOccupied);
        }
        Ok(())
    }

    /// Would the path stay open if building `removed` left and one arrived on `added`?
    fn path_survives(&self, added: Option<Pos>, removed: Option<u32>) -> (r: bool)
        requires
            board_wf(self@),
            added matches Some(p) ==> in_board(p),
        ensures
            r == survives(self@, added, removed),
    {
        let mut blocked: Vec<Pos> = Vec::new();
        let mut i: usize = 0;
        while i < self.buildings.len()
            invariant
                i <= self.buildings@.len(),
                blocked@ == kept_walls(self.buildings@, removed, i as int),
            decreases self.buildings@.len() - i,
        {
            if Some(self.buildings[i].id) != removed {
                blocked.push(self.buildings[i].pos);
            }
            i += 1;
        }
        match added {
            Some(p) => blocked.push(p),
            None => {},
        }
        proof {
            lemma_cell_roundtrip(self.entry);
            lemma_cell_roundtrip(self.exit);
            lemma_kept_walls(self.buildings@, removed, self.buildings@.len() as int);
            assert forall|k: int| 0 <= k < blocked@.len() implies indexable(#[trigger] blocked@[k]) by {
                let kept = kept_walls(self.buildings@, removed, self.buildings@.len() as int);
                if k < kept.len() {
                    lemma_kept_origin(self.buildings@, removed, self.buildings@.len() as int, k);
                    let j = choose|j: int| 0 <= j < self.buildings@.len() && kept[k] == self.buildings@[j].pos;
                    lemma_cell_roundtrip(self.buildings@[j].pos);
                } else {
                    lemma_cell_roundtrip(added->0);
                }
            }
        }
        shortest_path(self.entry, self.exit, blocked.as_slice()).is_some()
    }
}

/// Every kept wall is the position of some building.
proof fn lemma_kept_origin(bs: Seq<Building>, removed: Option<u32>, n: int, k: int)
    requires
        0 <= n <= bs.len(),
        0 <= k < kept_walls(bs, removed, n).len(),
    ensures
        exists|j: int| 0 <= j < bs.len() && kept_walls(bs, removed, n)[k] == bs[j].pos,
    decreases n,
{
    if n > 0 {
        let prev = kept_walls(bs, removed, n - 1);
        if Some(bs[n - 1].id) != removed && k == prev.len() {
            assert(kept_walls(bs, removed, n)[k] == bs[n - 1].pos);
        } else {
            lemma_kept_origin(bs, removed, n - 1, k);
        }
    }
}


impl Game {
    /// Index of the building with id `id`.
    fn index_of(&self, id: u32) -> (r: Option<usize>)
        ensures
            match r {
                Some(i) => id_index(self@.buildings, id, self@.buildings.len() as int) == Some(i as int),
                None => id_index(self@.buildings, id, self@.buildings.len() as int) is None,
            },
    {
        let mut i: usize = 0;
        while i < self.buildings.len()
            invariant
                i <= self.buildings@.len(),
                id_index(self.buildings@, id, i as int) is None,
            decreases self.buildings@.len() - i,
        {
            if self.buildings[i].id == id {
                proof {
                    lemma_id_index_stable(self.buildings@, id, i as int + 1, self.buildings@.len() as int);
                }
                return Some(i);
            }
            i += 1;
        }
        None
    }

    fn build(&mut self, kind: BuildingType, pos: Pos) -> (r: Result<(), ErrorCode>)
        requires
            board_wf(old(self)@),
            build_fits(old(self)@, kind, pos),
        ensures
            final(self)@ == spec_build(old(self)@, kind, pos).0,
            r == spec_build(old(self)@, kind, pos).1,
    {
        match self.check_placement(pos) {
            Err(e) => return Err(e),
            Ok(()) => {},
        }
        let cost = kind.stats().cost;
        if self.gold < cost {
            return Err(ErrorCode::InsufficientGold);
        }
        if !self.path_survives(Some(pos), None) {
            return Err(ErrorCode::PathBlocked);
        }
        self.gold = self.gold - cost;
        let id = self.next_id;
        self.next_id = self.next_id + 1;
        self.buildings.push(Building { id, kind, pos, damage_dealt: 0 });
        assert(self@ =~= spec_build(old(self)@, kind, pos).0);
        Ok(())
    }

    fn sell(&mut self, id: u32) -> (r: Result<(), ErrorCode>)
        requires
            sell_fits(old(self)@, id),
        ensures
            final(self)@ == spec_sell(old(self)@, id).0,
            r == spec_sell(old(self)@, id).1,
    {
        let idx = match self.index_of(id) {
            Some(i) => i,
            None => return Err(ErrorCode::UnknownBuilding),
        };
        proof {
            lemma_id_index(self@.buildings, id, self@.buildings.len() as int);
        }
        let refund = self.buildings[idx].kind.stats().cost / 2;
        self.buildings.remove(idx);
        self.gold = self.gold + refund;
        self.metrics.gold_refunded = self.metrics.gold_refunded + refund;
        assert(self@ =~= spec_sell(old(self)@, id).0);
        Ok(())
    }

    fn move_building(&mut self, id: u32, pos: Pos) -> (r: Result<(), ErrorCode>)
        requires
            board_wf(old(self)@),
            move_fits(old(self)@, id, pos),
        ensures
            final(self)@ == spec_move(old(self)@, id, pos).0,
            r == spec_move(old(self)@, id, pos).1,
    {
        let idx = match self.index_of(id) {
            Some(i) => i,
            None => return Err(ErrorCode::UnknownBuilding),
        };
        proof {
            lemma_id_index(self@.buildings, id, self@.buildings.len() as int);
        }
        if self.moves_remaining == 0 {
            return Err(ErrorCode::NoMovesLeft);
        }
        match self.check_placement(pos) {
            Err(e) => return Err(e),
            Ok(()) => {},
        }
        if !self.path_survives(Some(pos), Some(id)) {
            return Err(ErrorCode::PathBlocked);
        }
        let b = self.buildings[idx];
        self.buildings.set(idx, Building { pos, ..b });
        self.moves_remaining = self.moves_remaining - 1;
        self.metrics.moves_used = self.metrics.moves_used + 1;
        assert(self@ =~= spec_move(old(self)@, id, pos).0);
        Ok(())
    }
}


impl Game {
    /// Simulates the current wave, applies losses and income, moves on to the next.
    #[verifier::rlimit(100)]
    pub fn resolve_wave(&mut self)
        requires
            board_wf(old(self)@),
            resolve_fits(old(self)@),
        ensures
            final(self)@ == spec_resolve(old(self)@),
            game_wf(final(self)@),
    {
        let ghost g = self@;
        proof {
            lemma_resolve_keeps_game(g);
        }
        let report = run_wave(self);
        let ghost r = current_report(g);
        assert(report@ == r);
        let ghost lives1: u32 = if g.lives > r.lives_lost {
            (g.lives - r.lives_lost) as u32
        } else {
            0u32
        };
        let ghost bs1 = credited(g.buildings, r.damage_by_building, r.damage_by_building.len() as int);
        self.lives = self.lives.saturating_sub(report.lives_lost);
        assert(self.lives == lives1);
        let ghost entries = report.damage_by_building@;
        let mut k: usize = 0;
        while k < report.damage_by_building.len()
            invariant
                k <= entries.len(),
                entries == report.damage_by_building@,
                self.buildings@ == credited(g.buildings, entries, k as int),
                self@ == (GameView { buildings: self@.buildings, lives: lives1, ..g }),
                report@ == r,
                credit_fits(g.buildings, entries, entries.len() as int),
            decreases entries.len() - k,
        {
            proof {
                lemma_credit_fits_prefix(g.buildings, entries, k as int + 1, entries.len() as int);
            }
            let (id, dmg) = report.damage_by_building[k];
            credit_damage(&mut self.buildings, id, dmg);
            k += 1;
        }
        assert(self.buildings@ == bs1);
        self.last_report = Some(report);
        let ghost g1 = GameView { lives: lives1, buildings: bs1, last_report: Some(r), ..g };
        assert(self@ =~= g1);
        if self.lives == 0 {
            self.phase = Phase::GameOver;
            assert(self@ =~= spec_resolve(g));
            return;
        }
        assert(board_wf(self@)) by {
            assert(self@.buildings == spec_resolve(g).buildings);
        }
        self.wave = self.wave + 1;
        let income = self.income();
        self.gold = self.gold + income;
        self.moves_remaining = MOVES_PER_ROUND;
        self.actions_used = 0;
        assert(self@ =~= spec_resolve(g));
    }
}

proof fn lemma_credit_fits_prefix(bs: Seq<Building>, entries: Seq<(u32, u32)>, m: int, n: int)
    requires
        0 <= m <= n,
        credit_fits(bs, entries, n),
    ensures
        credit_fits(bs, entries, m),
    decreases n,
{
    if m < n {
        lemma_credit_fits_prefix(bs, entries, m, n - 1);
    }
}


/// Carrying out an action keeps the board sound.
pub proof fn lemma_try_keeps_board(g: GameView, a: Action)
    requires
        board_wf(g),
        try_fits(g, a),
    ensures
        board_wf(spec_try(g, a).0),
{
    match a {
        Action::Build { kind, pos } => lemma_build_keeps_board(g, kind, pos),
        Action::Sell { id } => lemma_sell_keeps_board(g, id),
        Action::Move { id, pos } => lemma_move_keeps_board(g, id, pos),
        Action::EndTurn => lemma_resolve_keeps_game(g),
    }
}

impl Game {
    fn try_action(&mut self, action: Action) -> (r: Result<(), ErrorCode>)
        requires
            board_wf(old(self)@),
            try_fits(old(self)@, action),
        ensures
            final(self)@ == spec_try(old(self)@, action).0,
            r == spec_try(old(self)@, action).1,
    {
        match action {
            Action::Build { kind, pos } => self.build(kind, pos),
            Action::Sell { id } => self.sell(id),
            Action::Move { id, pos } => self.move_building(id, pos),
            Action::EndTurn => {
                self.resolve_wave();
                Ok(())
            },
        }
    }

    /// Applies an action. Every attempt, failed ones included, spends an
    /// action credit; once `ACTION_LIMIT` attempts were made the round is
    /// closed on the spot.
    pub fn apply(&mut self, action: Action) -> (r: Result<(), ErrorCode>)
        requires
            game_wf(old(self)@),
            apply_fits(old(self)@, action),
        ensures
            final(self)@ == spec_apply(old(self)@, action).0,
            r == spec_apply(old(self)@, action).1,
            game_wf(final(self)@),
    {
        let ghost g = self@;
        if self.phase != Phase::Preparation {
            self.metrics.count(ErrorCode::WrongPhase);
            assert(self@ =~= spec_apply(g, action).0);
            return Err(ErrorCode::WrongPhase);
        }
        self.actions_used = self.actions_used + 1;
        let ghost g1 = self@;
        proof {
            lemma_try_keeps_board(g1, action);
        }
        let res = self.try_action(action);
        match res {
            Err(code) => {
                self.metrics.count(code);
            },
            Ok(()) => {},
        }
        let ghost g3 = self@;
        assert(g3 =~= attempted(g, action).0);
        if self.phase == Phase::Preparation && self.actions_used >= ACTION_LIMIT {
            self.metrics.forced_end_turns = self.metrics.forced_end_turns + 1;
            assert(self@ =~= with_forced(g3));
            self.resolve_wave();
        }
        res
    }
}


// ------------------------------------------------------------ replay

/// The game reached from seed `seed` by the actions of a log, in order.
pub open spec fn spec_replay(seed: u64, actions: Seq<Action>) -> GameView
    decreases actions.len(),
{
    if actions.len() == 0 {
        spec_new_game(seed)
    } else {
        spec_apply(spec_replay(seed, actions.drop_last()), actions.last()).0
    }
}

/// No action of the log overflows anything when replayed.
pub open spec fn replay_fits(seed: u64, actions: Seq<Action>) -> bool
    decreases actions.len(),
{
    if actions.len() == 0 {
        true
    } else {
        replay_fits(seed, actions.drop_last()) && apply_fits(spec_replay(seed, actions.drop_last()), actions.last())
    }
}

proof fn lemma_replay_fits_prefix(seed: u64, actions: Seq<Action>, k: int)
    requires
        0 <= k <= actions.len(),
        replay_fits(seed, actions),
    ensures
        replay_fits(seed, actions.take(k)),
    decreases actions.len(),
{
    if k < actions.len() {
        assert(actions.drop_last().take(k) =~= actions.take(k));
        lemma_replay_fits_prefix(seed, actions.drop_last(), k);
    } else {
        assert(actions.take(k) =~= actions);
    }
}

/// Replays a log of actions from a new game of seed `seed`; refused actions
/// are part of the log and replay the same way.
pub fn replay(seed: u64, actions: &Vec<Action>) -> (g: Game)
    requires
        replay_fits(seed, actions@),
    ensures
        g@ == spec_replay(seed, actions@),
        game_wf(g@),
{
    let mut g = Game::new(seed);
    let mut i: usize = 0;
    while i < actions.len()
        invariant
            i <= actions@.len(),
            replay_fits(seed, actions@),
            g@ == spec_replay(seed, actions@.take(i as int)),
            game_wf(g@),
        decreases actions@.len() - i,
    {
        proof {
            lemma_replay_fits_prefix(seed, actions@, i as int + 1);
            assert(actions@.take(i as int + 1).drop_last() =~= actions@.take(i as int));
        }
        let _ = g.apply(actions[i]);
        i += 1;
    }
    proof {
        assert(actions@.take(i as int) =~= actions@);
    }
    g
}

/// Replays a log of actions from a new game of seed `seed`, as `replay`
/// does; `None` when an action of the log would overflow a counter.
pub fn replay_log(seed: u64, actions: &Vec<Action>) -> (r: Option<Game>)
    ensures
        r is Some <==> replay_fits(seed, actions@),
        r matches Some(g) ==> g@ == spec_replay(seed, actions@) && game_wf(g@),
{
    let mut g = Game::new(seed);
    let mut i: usize = 0;
    while i < actions.len()
        invariant
            i <= actions@.len(),
            replay_fits(seed, actions@.take(i as int)),
            g@ == spec_replay(seed, actions@.take(i as int)),
            game_wf(g@),
        decreases actions@.len() - i,
    {
        let a = actions[i];
        proof {
            assert(actions@.take(i as int + 1).drop_last() =~= actions@.take(i as int));
            assert(actions@.take(i as int + 1).last() == a);
        }
        if !g.can_apply(a) {
            proof {
                if replay_fits(seed, actions@) {
                    lemma_replay_fits_prefix(seed, actions@, i as int + 1);
                }
            }
            return None;
        }
        let _ = g.apply(a);
        i += 1;
    }
    proof {
        assert(actions@.take(i as int) =~= actions@);
    }
    Some(g)
}


// ------------------------------------------------------------ checking an action beforehand

/// A copy of a vector of plain values.
fn copy_vec<T: Copy>(v: &Vec<T>) -> (r: Vec<T>)
    ensures
        r@ == v@,
{
    let mut r: Vec<T> = Vec::new();
    let mut i: usize = 0;
    while i < v.len()
        invariant
            i <= v@.len(),
            r@ =~= v@.take(i as int),
        decreases v@.len() - i,
    {
        r.push(v[i]);
        i += 1;
    }
    assert(r@ =~= v@);
    r
}

/// Index of the first building with id `id`.
fn find_id(bs: &Vec<Building>, id: u32) -> (r: Option<usize>)
    ensures
        match r {
            Some(i) => id_index(bs@, id, bs@.len() as int) == Some(i as int),
            None => id_index(bs@, id, bs@.len() as int) is None,
        },
{
    let mut i: usize = 0;
    while i < bs.len()
        invariant
            i <= bs@.len(),
            id_index(bs@, id, i as int) is None,
        decreases bs@.len() - i,
    {
        if bs[i].id == id {
            proof {
                lemma_id_index_stable(bs@, id, i as int + 1, bs@.len() as int);
            }
            return Some(i);
        }
        i += 1;
    }
    None
}

impl Metrics {
    /// Whether one more error `code` can be counted.
    fn can_count(&self, code: ErrorCode) -> (r: bool)
        ensures
            r == count_fits(self@.errors, code),
    {
        let mut i: usize = 0;
        while i < self.errors.len()
            invariant
                i <= self.errors@.len(),
                code_index(self.errors@, code, i as int) is None,
            decreases self.errors@.len() - i,
        {
            if self.errors[i].0 == code {
                proof {
                    lemma_code_index_stable(self.errors@, code, i as int + 1, self.errors@.len() as int);
                }
                return self.errors[i].1 < u32::MAX;
            }
            i += 1;
        }
        true
    }
}

impl Game {
    /// An independent copy of the game.
    fn duplicate(&self) -> (r: Game)
        ensures
            r@ == self@,
    {
        let last_report = match &self.last_report {
            Some(w) => Some(
                WaveReport {
                    wave: w.wave,
                    kills: w.kills,
                    leaked: w.leaked,
                    lives_lost: w.lives_lost,
                    damage_by_building: copy_vec(&w.damage_by_building),
                    ticks: w.ticks,
                },
            ),
            None => None,
        };
        let r = Game {
            seed: self.seed,
            wave: self.wave,
            phase: self.phase,
            lives: self.lives,
            gold: self.gold,
            entry: self.entry,
            exit: self.exit,
            buildings: copy_vec(&self.buildings),
            moves_remaining: self.moves_remaining,
            actions_used: self.actions_used,
            last_report,
            metrics: Metrics {
                errors: copy_vec(&self.metrics.errors),
                moves_used: self.metrics.moves_used,
                gold_refunded: self.metrics.gold_refunded,
                forced_end_turns: self.metrics.forced_end_turns,
            },
            next_id: self.next_id,
        };
        assert(r@ =~= self@);
        r
    }

    /// The answer a build would get, without building.
    fn build_outcome(&self, kind: BuildingType, pos: Pos) -> (r: Result<(), ErrorCode>)
        requires
            board_wf(self@),
        ensures
            r == spec_build(self@, kind, pos).1,
    {
        match self.check_placement(pos) {
            Err(e) => return Err(e),
            Ok(()) => {},
        }
        if self.gold < kind.stats().cost {
            return Err(ErrorCode::InsufficientGold);
        }
        if !self.path_survives(Some(pos), None) {
            return Err(ErrorCode::PathBlocked);
        }
        Ok(())
    }

    /// The answer a move would get, without moving.
    fn move_outcome(&self, id: u32, pos: Pos) -> (r: Result<(), ErrorCode>)
        requires
            board_wf(self@),
        ensures
            r == spec_move(self@, id, pos).1,
    {
        match self.index_of(id) {
            Some(_) => {},
            None => return Err(ErrorCode::UnknownBuilding),
        }
        if self.moves_remaining == 0 {
            return Err(ErrorCode::NoMovesLeft);
        }
        match self.check_placement(pos) {
            Err(e) => return Err(e),
            Ok(()) => {},
        }
        if !self.path_survives(Some(pos), Some(id)) {
            return Err(ErrorCode::PathBlocked);
        }
        Ok(())
    }

    /// Whether resolving the wave overflows nothing.
    #[verifier::rlimit(80)]
    fn resolve_check(&self) -> (r: bool)
        requires
            board_wf(self@),
        ensures
            r == resolve_fits(self@),
    {
        let ghost g = self@;
        if !(EnemyKind::Infantry.hp_fits(self.wave) && EnemyKind::Armor.hp_fits(self.wave)
            && EnemyKind::Flyer.hp_fits(self.wave)) {
            return false;
        }
        let report = run_wave(self);
        let ghost entries = report.damage_by_building@;
        assert(entries == current_report(g).damage_by_building);
        let mut bs = copy_vec(&self.buildings);
        let mut k: usize = 0;
        while k < report.damage_by_building.len()
            invariant
                k <= entries.len(),
                entries == report.damage_by_building@,
                entries == current_report(g).damage_by_building,
                g == self@,
                bs@ == credited(g.buildings, entries, k as int),
                credit_fits(g.buildings, entries, k as int),
            decreases entries.len() - k,
        {
            let (id, dmg) = report.damage_by_building[k];
            proof {
                lemma_id_index(bs@, id, bs@.len() as int);
            }
            match find_id(&bs, id) {
                Some(j) => {
                    if bs[j].damage_dealt > u32::MAX - dmg {
                        proof {
                            assert(entries[k as int] == (id, dmg));
                            assert(!credit_fits(g.buildings, entries, k as int + 1));
                            if credit_fits(g.buildings, entries, entries.len() as int) {
                                lemma_credit_fits_prefix(g.buildings, entries, k as int + 1, entries.len() as int);
                            }
                        }
                        return false;
                    }
                },
                None => {},
            }
            credit_damage(&mut bs, id, dmg);
            k += 1;
        }
        let lives = self.lives.saturating_sub(report.lives_lost);
        if lives > 0 {
            if self.wave == u32::MAX {
                return false;
            }
            let ghost h = GameView { buildings: bs@, ..g };
            proof {
                lemma_resolve_keeps_game(g);
                lemma_income_fits(g);
            }
            let income = self.income();
            if self.gold > u32::MAX - income {
                return false;
            }
        }
        true
    }
}


impl Game {
    /// Applies the action if doing so overflows nothing, and says whether it did.
    fn apply_checked(&mut self, action: Action) -> (r: bool)
        requires
            game_wf(old(self)@),
        ensures
            r == apply_fits(old(self)@, action),
            r ==> final(self)@ == spec_apply(old(self)@, action).0,
    {
        let ghost g = self@;
        if self.phase != Phase::Preparation {
            if !self.metrics.can_count(ErrorCode::WrongPhase) {
                return false;
            }
            self.metrics.count(ErrorCode::WrongPhase);
            assert(self@ =~= spec_apply(g, action).0);
            return true;
        }
        self.actions_used = self.actions_used + 1;
        let ghost g1 = self@;
        proof {
            lemma_id_index(g1.buildings, action->Sell_id, g1.buildings.len() as int);
        }
        let fits = match action {
            Action::Build { kind, pos } => self.next_id < u32::MAX || self.build_outcome(kind, pos).is_err(),
            Action::Sell { id } => match self.index_of(id) {
                Some(i) => {
                    let refund = self.buildings[i].kind.stats().cost / 2;
                    self.gold <= u32::MAX - refund && self.metrics.gold_refunded <= u32::MAX - refund
                },
                None => true,
            },
            Action::Move { id, pos } => self.metrics.moves_used < u32::MAX || self.move_outcome(id, pos).is_err(),
            Action::EndTurn => self.resolve_check(),
        };
        if !fits {
            return false;
        }
        proof {
            lemma_try_keeps_board(g1, action);
        }
        let res = self.try_action(action);
        match res {
            Err(code) => {
                if !self.metrics.can_count(code) {
                    return false;
                }
                self.metrics.count(code);
            },
            Ok(()) => {},
        }
        let ghost g3 = self@;
        assert(g3 =~= attempted(g, action).0);
        if self.phase == Phase::Preparation && self.actions_used >= ACTION_LIMIT {
            if self.metrics.forced_end_turns == u32::MAX {
                return false;
            }
            self.metrics.forced_end_turns = self.metrics.forced_end_turns + 1;
            assert(self@ =~= with_forced(g3));
            if !self.resolve_check() {
                return false;
            }
            self.resolve_wave();
        }
        true
    }

    /// Whether `apply(action)` can run: it would overflow no counter, and the
    /// hit points of any wave it resolves can be computed.
    pub fn can_apply(&self, action: Action) -> (r: bool)
        requires
            game_wf(self@),
        ensures
            r == apply_fits(self@, action),
    {
        let mut h = self.duplicate();
        h.apply_checked(action)
    }
}

} // verus!
