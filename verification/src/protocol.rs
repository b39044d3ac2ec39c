//! The agent contract: actions as agents write them, and the observation of
//! a game as agents read it. Serialisation itself lives with the server.
use vstd::prelude::*;
use crate::types::{
    Pos, Building, BuildingType, Phase, ErrorCode, Action, BOARD_W, BOARD_H, ACTION_LIMIT, spec_building_name,
    spec_kind_named, spec_cost, building_types, spec_building_types,
};
use crate::text::{chars_of, parse_unsigned_in, parse_i64, spec_parse_unsigned, spec_parse_i64, opt_nat, decimal, spec_decimal, push_decimal};
use crate::game::{Game, GameView, board_wf, spec_game_income};
use crate::sim::{WaveReport, ReportView, ground_path};
use crate::waves::{spec_wave_composition, spec_incoming_intel, incoming_intel, spec_detailed_intel, detailed_intel};
use crate::path::{path_view, best_route};

verus! {

/// Observation mode. Both modes show the same game; only the intel text
/// differs: the `detailed` one buries the announcement among filler sentences.
#[derive(Clone, Copy, PartialEq, Eq, Debug, Structural)]
pub enum Mode {
    Minimal,
    Detailed,
}

pub open spec fn spec_mode_str(m: Mode) -> Seq<char> {
    match m {
        Mode::Minimal => "minimal"@,
        Mode::Detailed => "detailed"@,
    }
}

impl Mode {
    pub fn as_str(self) -> (s: &'static str)
        ensures
            s@ == spec_mode_str(self),
    {
        match self {
            Mode::Minimal => "minimal",
            Mode::Detailed => "detailed",
        }
    }
}

/// The announcement of wave `wave` as mode `mode` shows it.
pub open spec fn spec_intel(seed: u64, wave: u32, mode: Mode) -> Seq<char> {
    match mode {
        Mode::Minimal => spec_incoming_intel(seed, wave),
        Mode::Detailed => spec_detailed_intel(seed, wave),
    }
}

/// The announcement of wave `wave` in mode `mode`.
pub fn intel_for(seed: u64, wave: u32, mode: Mode) -> (s: String)
    ensures
        s@ == spec_intel(seed, wave, mode),
{
    match mode {
        Mode::Minimal => incoming_intel(seed, wave),
        Mode::Detailed => detailed_intel(seed, wave),
    }
}

/// An action as the agent contract writes it.
pub enum ActionDto {
    Build { building_type: String, x: i32, y: i32 },
    Sell { building_id: String },
    Move { building_id: String, x: i32, y: i32 },
    EndTurn,
}

/// The building id written `b<number>`, as a number.
pub open spec fn spec_parse_id(s: Seq<char>) -> Result<u32, ErrorCode> {
    if s.len() > 0 && s[0] == 'b' {
        match spec_parse_unsigned(s.drop_first(), u32::MAX as nat) {
            Some(v) => Ok(v as u32),
            None => Err(ErrorCode::UnknownBuilding),
        }
    } else {
        Err(ErrorCode::UnknownBuilding)
    }
}

/// `"b12"` is building 12; any other spelling is an unknown building.
pub fn parse_id(s: &str) -> (r: Result<u32, ErrorCode>)
    ensures
        r == spec_parse_id(s@),
{
    let cs = chars_of(s);
    if cs.len() > 0 && cs[0] == 'b' {
        assert(cs@.subrange(1, cs@.len() as int) =~= s@.drop_first());
        match parse_unsigned_in(&cs, 1, cs.len(), u32::MAX as u64) {
            Some(v) => Ok(v as u32),
            None => Err(ErrorCode::UnknownBuilding),
        }
    } else {
        Err(ErrorCode::UnknownBuilding)
    }
}

/// The action an agent's request stands for.
pub open spec fn spec_to_action(dto: ActionDto) -> Result<Action, ErrorCode> {
    match dto {
        ActionDto::Build { building_type, x, y } => match spec_kind_named(building_type@) {
            Some(kind) => Ok(Action::Build { kind, pos: Pos { x, y } }),
            None => Err(ErrorCode::UnknownBuilding),
        },
        ActionDto::Sell { building_id } => match spec_parse_id(building_id@) {
            Ok(id) => Ok(Action::Sell { id }),
            Err(e) => Err(e),
        },
        ActionDto::Move { building_id, x, y } => match spec_parse_id(building_id@) {
            Ok(id) => Ok(Action::Move { id, pos: Pos { x, y } }),
            Err(e) => Err(e),
        },
        ActionDto::EndTurn => Ok(Action::EndTurn),
    }
}

impl ActionDto {
    /// The engine action of a request: unknown building types and malformed
    /// building ids are `UNKNOWN_BUILDING`.
    pub fn to_action(&self) -> (r: Result<Action, ErrorCode>)
        ensures
            r == spec_to_action(*self),
    {
        match self {
            ActionDto::Build { building_type, x, y } => match BuildingType::from_name(building_type.as_str()) {
                Some(kind) => Ok(Action::Build { kind, pos: Pos::new(*x, *y) }),
                None => Err(ErrorCode::UnknownBuilding),
            },
            ActionDto::Sell { building_id } => match parse_id(building_id.as_str()) {
                Ok(id) => Ok(Action::Sell { id }),
                Err(e) => Err(e),
            },
            ActionDto::Move { building_id, x, y } => match parse_id(building_id.as_str()) {
                Ok(id) => Ok(Action::Move { id, pos: Pos::new(*x, *y) }),
                Err(e) => Err(e),
            },
            ActionDto::EndTurn => Ok(Action::EndTurn),
        }
    }
}

/// The game id written `g<number>`, as a number.
pub open spec fn spec_parse_game_id(s: Seq<char>) -> Option<int> {
    if s.len() > 0 && s[0] == 'g' {
        spec_parse_i64(s.drop_first())
    } else {
        None
    }
}

/// `"g12"` is game 12.
pub fn parse_game_id(game_id: &str) -> (r: Option<i64>)
    ensures
        (match r {
            Some(v) => Some(v as int),
            None => None,
        }) == spec_parse_game_id(game_id@),
{
    let n = game_id.unicode_len();
    if n > 0 && game_id.get_char(0) == 'g' {
        let rest = game_id.substring_char(1, n);
        assert(rest@ =~= game_id@.drop_first());
        parse_i64(rest)
    } else {
        None
    }
}


// ------------------------------------------------------------ observation

/// How the contract names building `id`: `b` and the number.
pub open spec fn spec_label(id: u32) -> Seq<char> {
    "b"@ + spec_decimal(id as nat)
}

/// The label `b<id>` of a building.
pub fn building_label(id: u32) -> (s: String)
    ensures
        s@ == spec_label(id),
{
    let mut s = String::from_str("b");
    push_decimal(&mut s, id as u64);
    s
}

pub open spec fn spec_phase_name(p: Phase) -> Seq<char> {
    match p {
        Phase::Preparation => "preparation"@,
        Phase::GameOver => "game_over"@,
    }
}

/// A building as agents see it.
pub struct BuildingInfo {
    pub id: String,
    pub kind: &'static str,
    pub x: i32,
    pub y: i32,
    pub damage_dealt: u32,
}

/// A wave report as agents see it.
pub struct ReportInfo {
    pub wave: u32,
    pub kills: [u32; 3],
    pub leaked: [u32; 3],
    pub lives_lost: u32,
    /// (building label, damage) in building order.
    pub damage_by_building: Vec<(String, u32)>,
}

/// An entry of the shop.
pub struct ShopItem {
    pub kind: &'static str,
    pub cost: u32,
}

/// Everything an agent is shown of a game (the contract's `state`).
pub struct Observation {
    pub game_id: String,
    pub seed: u64,
    pub mode: &'static str,
    pub wave: u32,
    pub phase: &'static str,
    pub lives: u32,
    pub gold: u32,
    pub income_per_wave: u32,
    pub width: i32,
    pub height: i32,
    pub entry: Pos,
    pub exit: Pos,
    pub buildings: Vec<BuildingInfo>,
    pub current_path: Vec<Pos>,
    pub next_wave: [u32; 3],
    pub incoming_intel: String,
    pub moves_remaining: u32,
    pub actions_remaining: u32,
    pub shop: Vec<ShopItem>,
    pub last_wave_report: Option<ReportInfo>,
}

/// How a building appears in an observation.
pub open spec fn shows_building(i: BuildingInfo, b: Building) -> bool {
    &&& i.id@ == spec_label(b.id)
    &&& i.kind@ == spec_building_name(b.kind)
    &&& i.x == b.pos.x
    &&& i.y == b.pos.y
    &&& i.damage_dealt == b.damage_dealt
}

/// How a wave report appears in an observation.
pub open spec fn shows_report(i: ReportInfo, r: ReportView) -> bool {
    &&& i.wave == r.wave
    &&& i.kills@ == r.kills
    &&& i.leaked@ == r.leaked
    &&& i.lives_lost == r.lives_lost
    &&& i.damage_by_building@.len() == r.damage_by_building.len()
    &&& forall|k: int|
        0 <= k < r.damage_by_building.len() ==> (#[trigger] i.damage_by_building@[k]).0@ == spec_label(
            r.damage_by_building[k].0,
        ) && i.damage_by_building@[k].1 == r.damage_by_building[k].1
}

fn report_info(r: &WaveReport) -> (i: ReportInfo)
    ensures
        shows_report(i, r@),
{
    let mut dmg: Vec<(String, u32)> = Vec::new();
    let mut k: usize = 0;
    while k < r.damage_by_building.len()
        invariant
            k <= r.damage_by_building@.len(),
            dmg@.len() == k,
            forall|j: int|
                0 <= j < k ==> (#[trigger] dmg@[j]).0@ == spec_label(r.damage_by_building@[j].0) && dmg@[j].1
                    == r.damage_by_building@[j].1,
        decreases r.damage_by_building@.len() - k,
    {
        let (id, d) = r.damage_by_building[k];
        dmg.push((building_label(id), d));
        k += 1;
    }
    ReportInfo { wave: r.wave, kills: r.kills, leaked: r.leaked, lives_lost: r.lives_lost, damage_by_building: dmg }
}

/// Whether `o` is the observation of game `g`, named `game_id`, in mode
/// `mode`. The intel announces the wave after the next one; the mode changes
/// nothing but the `mode` field and the intel text.
pub open spec fn observes(o: Observation, game_id: Seq<char>, g: GameView, mode: Mode) -> bool {
    &&& o.game_id@ == game_id
    &&& o.seed == g.seed
    &&& o.mode@ == spec_mode_str(mode)
    &&& o.wave == g.wave
    &&& o.phase@ == spec_phase_name(g.phase)
    &&& o.lives == g.lives
    &&& o.gold == g.gold
    &&& o.income_per_wave == spec_game_income(g.buildings)
    &&& o.width == BOARD_W && o.height == BOARD_H
    &&& o.entry == g.entry && o.exit == g.exit
    &&& o.buildings@.len() == g.buildings.len()
    &&& forall|i: int| 0 <= i < g.buildings.len() ==> shows_building(#[trigger] o.buildings@[i], g.buildings[i])
    &&& o.current_path@ == ground_path(g.entry, g.exit, g.buildings)
    &&& o.next_wave@ == spec_wave_composition(g.seed, g.wave)
    &&& o.incoming_intel@ == spec_intel(g.seed, (g.wave + 1) as u32, mode)
    &&& o.moves_remaining == g.moves_remaining
    &&& o.actions_remaining == ACTION_LIMIT - g.actions_used
    &&& o.shop@.len() == 5
    &&& forall|i: int|
        0 <= i < 5 ==> (#[trigger] o.shop@[i]).kind@ == spec_building_name(spec_building_types()[i])
            && o.shop@[i].cost == spec_cost(spec_building_types()[i])
    &&& match g.last_report {
        Some(r) => o.last_wave_report matches Some(i) && shows_report(i, r),
        None => o.last_wave_report is None,
    }
}

/// The observation of game `g`, named `game_id`, in mode `mode`.
pub fn observe(game_id: &str, g: &Game, mode: Mode) -> (o: Observation)
    requires
        board_wf(g@),
        g.wave < u32::MAX,
        g.actions_used <= ACTION_LIMIT,
    ensures
        observes(o, game_id@, g@, mode),
{
    let mut buildings: Vec<BuildingInfo> = Vec::new();
    let mut i: usize = 0;
    while i < g.buildings.len()
        invariant
            i <= g.buildings@.len(),
            buildings@.len() == i,
            forall|j: int| 0 <= j < i ==> shows_building(#[trigger] buildings@[j], g.buildings@[j]),
        decreases g.buildings@.len() - i,
    {
        let b = g.buildings[i];
        buildings.push(
            BuildingInfo {
                id: building_label(b.id),
                kind: b.kind.stats().name,
                x: b.pos.x,
                y: b.pos.y,
                damage_dealt: b.damage_dealt,
            },
        );
        i += 1;
    }
    let current_path = match g.current_path() {
        Some(p) => p,
        None => Vec::new(),
    };
    let kinds = building_types();
    let mut shop: Vec<ShopItem> = Vec::new();
    let mut k: usize = 0;
    while k < kinds.len()
        invariant
            kinds@ == spec_building_types(),
            k <= kinds@.len(),
            shop@.len() == k,
            forall|j: int|
                0 <= j < k ==> (#[trigger] shop@[j]).kind@ == spec_building_name(spec_building_types()[j])
                    && shop@[j].cost == spec_cost(spec_building_types()[j]),
        decreases kinds@.len() - k,
    {
        let st = kinds[k].stats();
        shop.push(ShopItem { kind: st.name, cost: st.cost });
        k += 1;
    }
    let last_wave_report = match &g.last_report {
        Some(r) => Some(report_info(r)),
        None => None,
    };
    proof {
        reveal_strlit("preparation");
        reveal_strlit("game_over");
        crate::game::lemma_income_fits(g@);
    }
    Observation {
        game_id: String::from_str(game_id),
        seed: g.seed,
        mode: mode.as_str(),
        wave: g.wave,
        phase: match g.phase {
            Phase::Preparation => "preparation",
            Phase::GameOver => "game_over",
        },
        lives: g.lives,
        gold: g.gold,
        income_per_wave: g.income(),
        width: BOARD_W,
        height: BOARD_H,
        entry: g.entry,
        exit: g.exit,
        buildings,
        current_path,
        next_wave: g.composition(g.wave),
        incoming_intel: intel_for(g.seed, g.wave + 1, mode),
        moves_remaining: g.moves_remaining,
        actions_remaining: ACTION_LIMIT - g.actions_used,
        shop,
        last_wave_report,
    }
}


/// The two observation modes show the same game: every field but the mode's
/// name and the intel text is the same, and the detailed intel is another
/// text that holds the minimal one whole, both functions of the seed and of
/// the wave they announce.
pub proof fn lemma_modes_differ_only_in_the_intel(o1: Observation, o2: Observation, id: Seq<char>, g: GameView)
    requires
        observes(o1, id, g, Mode::Minimal),
        observes(o2, id, g, Mode::Detailed),
    ensures
        o1.game_id@ == o2.game_id@ && o1.seed == o2.seed && o1.wave == o2.wave,
        o1.phase@ == o2.phase@ && o1.lives == o2.lives && o1.gold == o2.gold,
        o1.income_per_wave == o2.income_per_wave,
        o1.width == o2.width && o1.height == o2.height && o1.entry == o2.entry && o1.exit == o2.exit,
        o1.buildings@.len() == o2.buildings@.len(),
        forall|i: int|
            0 <= i < o1.buildings@.len() ==> {
                let (a, b) = (#[trigger] o1.buildings@[i], o2.buildings@[i]);
                a.id@ == b.id@ && a.kind@ == b.kind@ && a.x == b.x && a.y == b.y && a.damage_dealt == b.damage_dealt
            },
        o1.current_path@ == o2.current_path@ && o1.next_wave@ == o2.next_wave@,
        o1.moves_remaining == o2.moves_remaining && o1.actions_remaining == o2.actions_remaining,
        o1.shop@.len() == o2.shop@.len(),
        forall|i: int|
            0 <= i < o1.shop@.len() ==> (#[trigger] o1.shop@[i]).kind@ == o2.shop@[i].kind@ && o1.shop@[i].cost
                == o2.shop@[i].cost,
        o1.last_wave_report is Some <==> o2.last_wave_report is Some,
        o1.mode@ == "minimal"@ && o2.mode@ == "detailed"@,
        o1.incoming_intel@ == spec_incoming_intel(g.seed, (g.wave + 1) as u32),
        o2.incoming_intel@ == spec_detailed_intel(g.seed, (g.wave + 1) as u32),
        o2.incoming_intel@ != o1.incoming_intel@,
        exists|at: int|
            0 <= at && at + o1.incoming_intel@.len() <= o2.incoming_intel@.len() && #[trigger] o2.incoming_intel@.subrange(
                at,
                at + o1.incoming_intel@.len(),
            ) == o1.incoming_intel@,
{
    let w = (g.wave + 1) as u32;
    crate::waves::lemma_detailed_buries_the_announcement(g.seed, w);
    let at = crate::waves::fillers_before(crate::waves::report_first(g.seed, w), crate::waves::report_cut(g.seed, w) as nat).len() as int;
    assert(o2.incoming_intel@.subrange(at, at + o1.incoming_intel@.len()) == o1.incoming_intel@);
    assert forall|i: int| 0 <= i < o1.buildings@.len() implies {
        let (a, b) = (#[trigger] o1.buildings@[i], o2.buildings@[i]);
        a.id@ == b.id@ && a.kind@ == b.kind@ && a.x == b.x && a.y == b.y && a.damage_dealt == b.damage_dealt
    } by {
        assert(shows_building(o1.buildings@[i], g.buildings[i]));
        assert(shows_building(o2.buildings@[i], g.buildings[i]));
    }
    assert forall|i: int| 0 <= i < o1.shop@.len() implies (#[trigger] o1.shop@[i]).kind@ == o2.shop@[i].kind@
        && o1.shop@[i].cost == o2.shop@[i].cost by {
        assert(o1.shop@[i].kind@ == spec_building_name(spec_building_types()[i]));
        assert(o2.shop@[i].kind@ == spec_building_name(spec_building_types()[i]));
    }
}

} // verus!
