use vstd::prelude::*;
use crate::text::str_eq;

verus! {

pub const BOARD_W: i32 = 10;
pub const BOARD_H: i32 = 10;
pub const START_GOLD: u32 = 180;
pub const START_LIVES: u32 = 20;
pub const BASE_INCOME: u32 = 30;
pub const MOVES_PER_ROUND: u32 = 1;
pub const ACTION_LIMIT: u32 = 20;

/// A cell of the board (or any point of the plane).
#[derive(Clone, Copy, PartialEq, Eq, Debug, Structural)]
pub struct Pos {
    pub x: i32,
    pub y: i32,
}

/// Squared Euclidean distance between two points, as a mathematical integer.
pub open spec fn spec_dist_sq(a: Pos, b: Pos) -> int {
    (a.x - b.x) * (a.x - b.x) + (a.y - b.y) * (a.y - b.y)
}

/// Whether `dist_sq` can be computed in `i32` without overflow.
pub open spec fn dist_sq_fits(a: Pos, b: Pos) -> bool {
    &&& i32::MIN <= a.x - b.x <= i32::MAX
    &&& i32::MIN <= a.y - b.y <= i32::MAX
    &&& spec_dist_sq(a, b) <= i32::MAX
}

/// Whether a point lies on the board.
pub open spec fn in_board(p: Pos) -> bool {
    0 <= p.x < BOARD_W && 0 <= p.y < BOARD_H
}

impl Pos {
    pub fn new(x: i32, y: i32) -> (p: Self)
        ensures
            p.x == x,
            p.y == y,
    {
        Pos { x, y }
    }

    /// Squared Euclidean distance, in integers.
    pub fn dist_sq(self, o: Pos) -> (d: i32)
        requires
            dist_sq_fits(self, o),
        ensures
            d == spec_dist_sq(self, o),
    {
        let dx = self.x - o.x;
        let dy = self.y - o.y;
        assert(0 <= dx * dx && 0 <= dy * dy) by (nonlinear_arith);
        dx * dx + dy * dy
    }
}

/// Any two points of the board are close enough for `dist_sq`.
pub proof fn lemma_board_dist_fits(a: Pos, b: Pos)
    requires
        in_board(a),
        in_board(b),
    ensures
        dist_sq_fits(a, b),
        0 <= spec_dist_sq(a, b) <= 162,
{
    let dx = a.x - b.x;
    let dy = a.y - b.y;
    assert(dx * dx <= 81 && 0 <= dx * dx) by (nonlinear_arith)
        requires
            -9 <= dx <= 9,
    ;
    assert(dy * dy <= 81 && 0 <= dy * dy) by (nonlinear_arith)
        requires
            -9 <= dy <= 9,
    ;
}

#[derive(Clone, Copy, PartialEq, Eq, Debug, Structural)]
pub enum BuildingType {
    Sniper,
    Flamethrower,
    AntiArmor,
    Mortar,
    Eco,
}

/// The building types in shop order.
pub open spec fn spec_building_types() -> Seq<BuildingType> {
    seq![
        BuildingType::Sniper,
        BuildingType::Flamethrower,
        BuildingType::AntiArmor,
        BuildingType::Mortar,
        BuildingType::Eco,
    ]
}

/// The building types in shop order.
pub fn building_types() -> (v: Vec<BuildingType>)
    ensures
        v@ == spec_building_types(),
{
    vec![
        BuildingType::Sniper,
        BuildingType::Flamethrower,
        BuildingType::AntiArmor,
        BuildingType::Mortar,
        BuildingType::Eco,
    ]
}

/// Turret statistics. Ranges are **squared** distances.
#[derive(Clone, Copy, Debug)]
pub struct BuildingStats {
    pub name: &'static str,
    pub cost: u32,
    pub range_sq: i32,
    pub min_range_sq: i32,
    pub damage: u32,
    /// Extra damage against armored enemies.
    pub bonus_vs_armor: u32,
    /// Ticks between two shots.
    pub cooldown: u32,
    /// Squared splash radius around the target (0 = single target).
    pub splash_sq: i32,
    pub hits_air: bool,
    pub income: u32,
}

/// The name of a building type, as the agent protocol spells it.
pub open spec fn spec_building_name(k: BuildingType) -> Seq<char> {
    match k {
        BuildingType::Sniper => "sniper"@,
        BuildingType::Flamethrower => "flamethrower"@,
        BuildingType::AntiArmor => "anti_armor"@,
        BuildingType::Mortar => "mortar"@,
        BuildingType::Eco => "eco"@,
    }
}

pub open spec fn spec_cost(k: BuildingType) -> u32 {
    match k {
        BuildingType::Sniper => 50,
        BuildingType::Flamethrower => 40,
        BuildingType::AntiArmor => 70,
        BuildingType::Mortar => 90,
        BuildingType::Eco => 60,
    }
}

pub open spec fn spec_range_sq(k: BuildingType) -> i32 {
    match k {
        BuildingType::Sniper => 16,
        BuildingType::Flamethrower => 2,
        BuildingType::AntiArmor => 9,
        BuildingType::Mortar => 36,
        BuildingType::Eco => 0,
    }
}

pub open spec fn spec_min_range_sq(k: BuildingType) -> i32 {
    match k {
        BuildingType::Mortar => 4,
        _ => 0,
    }
}

pub open spec fn spec_damage(k: BuildingType) -> u32 {
    match k {
        BuildingType::Sniper => 7,
        BuildingType::Flamethrower => 5,
        BuildingType::AntiArmor => 5,
        BuildingType::Mortar => 13,
        BuildingType::Eco => 0,
    }
}

pub open spec fn spec_bonus_vs_armor(k: BuildingType) -> u32 {
    match k {
        BuildingType::AntiArmor => 40,
        _ => 0,
    }
}

pub open spec fn spec_cooldown(k: BuildingType) -> u32 {
    match k {
        BuildingType::Sniper => 2,
        BuildingType::Flamethrower => 2,
        BuildingType::AntiArmor => 3,
        BuildingType::Mortar => 5,
        BuildingType::Eco => 0,
    }
}

pub open spec fn spec_splash_sq(k: BuildingType) -> i32 {
    match k {
        BuildingType::Flamethrower => 2,
        BuildingType::Mortar => 4,
        _ => 0,
    }
}

pub open spec fn spec_hits_air(k: BuildingType) -> bool {
    k == BuildingType::Sniper
}

pub open spec fn spec_income(k: BuildingType) -> u32 {
    match k {
        BuildingType::Eco => 8,
        _ => 0,
    }
}

/// Whether `s` is the statistics sheet of building type `k`.
pub open spec fn stats_of(k: BuildingType, s: BuildingStats) -> bool {
    &&& s.name@ == spec_building_name(k)
    &&& s.cost == spec_cost(k)
    &&& s.range_sq == spec_range_sq(k)
    &&& s.min_range_sq == spec_min_range_sq(k)
    &&& s.damage == spec_damage(k)
    &&& s.bonus_vs_armor == spec_bonus_vs_armor(k)
    &&& s.cooldown == spec_cooldown(k)
    &&& s.splash_sq == spec_splash_sq(k)
    &&& s.hits_air == spec_hits_air(k)
    &&& s.income == spec_income(k)
}

pub open spec fn spec_building_glyph(k: BuildingType) -> char {
    match k {
        BuildingType::Sniper => 'S',
        BuildingType::Flamethrower => 'F',
        BuildingType::AntiArmor => 'A',
        BuildingType::Mortar => 'M',
        BuildingType::Eco => 'E',
    }
}

/// The building type named `s`, if any.
pub open spec fn spec_kind_named(s: Seq<char>) -> Option<BuildingType> {
    if exists|k: BuildingType| spec_building_name(k) == s {
        Some(choose|k: BuildingType| spec_building_name(k) == s)
    } else {
        None
    }
}

/// No two building types share a name.
pub proof fn lemma_names_distinct(a: BuildingType, b: BuildingType)
    requires
        spec_building_name(a) == spec_building_name(b),
    ensures
        a == b,
{
    reveal_strlit("sniper");
    reveal_strlit("flamethrower");
    reveal_strlit("anti_armor");
    reveal_strlit("mortar");
    reveal_strlit("eco");
    assert("sniper"@.len() == 6 && "flamethrower"@.len() == 12 && "anti_armor"@.len() == 10
        && "mortar"@.len() == 6 && "eco"@.len() == 3);
    assert("sniper"@[0] != "mortar"@[0]);
}

impl BuildingType {
    /// The balance sheet: one constant table per building type.
    pub fn stats(self) -> (s: BuildingStats)
        ensures
            stats_of(self, s),
    {
        proof {
            reveal_strlit("sniper");
            reveal_strlit("flamethrower");
            reveal_strlit("anti_armor");
            reveal_strlit("mortar");
            reveal_strlit("eco");
        }
        match self {
            BuildingType::Sniper => BuildingStats {
                name: "sniper",
                cost: 50,
                range_sq: 16,
                min_range_sq: 0,
                damage: 7,
                bonus_vs_armor: 0,
                cooldown: 2,
                splash_sq: 0,
                hits_air: true,
                income: 0,
            },
            BuildingType::Flamethrower => BuildingStats {
                name: "flamethrower",
                cost: 40,
                range_sq: 2,
                min_range_sq: 0,
                damage: 5,
                bonus_vs_armor: 0,
                cooldown: 2,
                splash_sq: 2,
                hits_air: false,
                income: 0,
            },
            BuildingType::AntiArmor => BuildingStats {
                name: "anti_armor",
                cost: 70,
                range_sq: 9,
                min_range_sq: 0,
                damage: 5,
                bonus_vs_armor: 40,
                cooldown: 3,
                splash_sq: 0,
                hits_air: false,
                income: 0,
            },
            BuildingType::Mortar => BuildingStats {
                name: "mortar",
                cost: 90,
                range_sq: 36,
                min_range_sq: 4,
                damage: 13,
                bonus_vs_armor: 0,
                cooldown: 5,
                splash_sq: 4,
                hits_air: false,
                income: 0,
            },
            BuildingType::Eco => BuildingStats {
                name: "eco",
                cost: 60,
                range_sq: 0,
                min_range_sq: 0,
                damage: 0,
                bonus_vs_armor: 0,
                cooldown: 0,
                splash_sq: 0,
                hits_air: false,
                income: 8,
            },
        }
    }

    pub fn glyph(self) -> (c: char)
        ensures
            c == spec_building_glyph(self),
    {
        match self {
            BuildingType::Sniper => 'S',
            BuildingType::Flamethrower => 'F',
            BuildingType::AntiArmor => 'A',
            BuildingType::Mortar => 'M',
            BuildingType::Eco => 'E',
        }
    }

    /// The building type whose name is `s`, if any.
    pub fn from_name(s: &str) -> (r: Option<Self>)
        ensures
            r == spec_kind_named(s@),
    {
        let kinds = building_types();
        let mut i: usize = 0;
        while i < kinds.len()
            invariant
                kinds@ == spec_building_types(),
                i <= kinds@.len(),
                forall|j: int| 0 <= j < i ==> spec_building_name(#[trigger] kinds@[j]) != s@,
            decreases kinds@.len() - i,
        {
            let k = kinds[i];
            if str_eq(k.stats().name, s) {
                proof {
                    let c = choose|c: BuildingType| spec_building_name(c) == s@;
                    lemma_names_distinct(c, k);
                }
                return Some(k);
            }
            i += 1;
        }
        assert forall|k: BuildingType| spec_building_name(k) != s@ by {
            match k {
                BuildingType::Sniper => assert(spec_building_name(kinds@[0]) != s@),
                BuildingType::Flamethrower => assert(spec_building_name(kinds@[1]) != s@),
                BuildingType::AntiArmor => assert(spec_building_name(kinds@[2]) != s@),
                BuildingType::Mortar => assert(spec_building_name(kinds@[3]) != s@),
                BuildingType::Eco => assert(spec_building_name(kinds@[4]) != s@),
            }
        }
        None
    }
}

#[derive(Clone, Copy, Debug)]
pub struct Building {
    pub id: u32,
    pub kind: BuildingType,
    pub pos: Pos,
    /// Damage dealt over the whole game.
    pub damage_dealt: u32,
}

#[derive(Clone, Copy, PartialEq, Eq, Debug, Structural)]
pub enum EnemyKind {
    Infantry,
    Armor,
    Flyer,
}

/// The enemy kinds, in composition order.
pub open spec fn spec_enemy_kinds() -> Seq<EnemyKind> {
    seq![EnemyKind::Infantry, EnemyKind::Armor, EnemyKind::Flyer]
}

/// The enemy kinds, in composition order.
pub fn enemy_kinds() -> (v: Vec<EnemyKind>)
    ensures
        v@ == spec_enemy_kinds(),
{
    vec![EnemyKind::Infantry, EnemyKind::Armor, EnemyKind::Flyer]
}

pub open spec fn spec_enemy_name(k: EnemyKind) -> Seq<char> {
    match k {
        EnemyKind::Infantry => "infantry"@,
        EnemyKind::Armor => "armor"@,
        EnemyKind::Flyer => "flyer"@,
    }
}

pub open spec fn spec_base_hp(k: EnemyKind) -> u32 {
    match k {
        EnemyKind::Infantry => 14,
        EnemyKind::Armor => 80,
        EnemyKind::Flyer => 20,
    }
}

pub open spec fn spec_plating(k: EnemyKind) -> u32 {
    match k {
        EnemyKind::Armor => 6,
        _ => 0,
    }
}

pub open spec fn spec_move_period(k: EnemyKind) -> u32 {
    match k {
        EnemyKind::Infantry => 2,
        EnemyKind::Armor => 4,
        EnemyKind::Flyer => 3,
    }
}

pub open spec fn spec_lives_cost(k: EnemyKind) -> u32 {
    match k {
        EnemyKind::Infantry => 1,
        EnemyKind::Armor => 3,
        EnemyKind::Flyer => 1,
    }
}

pub open spec fn spec_enemy_glyph(k: EnemyKind) -> char {
    match k {
        EnemyKind::Infantry => 'i',
        EnemyKind::Armor => 'a',
        EnemyKind::Flyer => 'v',
    }
}

pub open spec fn spec_enemy_index(k: EnemyKind) -> int {
    match k {
        EnemyKind::Infantry => 0,
        EnemyKind::Armor => 1,
        EnemyKind::Flyer => 2,
    }
}

/// Hit points after `steps` compound increases of 8 % (rounded down each time).
pub open spec fn hp_growth(base: nat, steps: nat) -> nat
    decreases steps,
{
    if steps == 0 {
        base
    } else {
        hp_growth(base, (steps - 1) as nat) * 108 / 100
    }
}

/// Hit-point growth never decreases.
pub proof fn lemma_hp_growth_monotone(base: nat, a: nat, b: nat)
    requires
        a <= b,
    ensures
        hp_growth(base, a) <= hp_growth(base, b),
    decreases b,
{
    if a < b {
        lemma_hp_growth_monotone(base, a, (b - 1) as nat);
        let h = hp_growth(base, (b - 1) as nat);
        assert(h <= h * 108 / 100) by (nonlinear_arith);
    }
}

/// Whether `hp_at(wave)` runs without overflowing its 64-bit accumulator.
pub open spec fn hp_at_fits(k: EnemyKind, wave: u32) -> bool {
    wave >= 2 ==> hp_growth(spec_base_hp(k) as nat, (wave - 2) as nat) * 108 <= u64::MAX
}

/// Hit points of an enemy at wave `wave`: +8 % per wave, compounded, truncated to `u32`.
pub open spec fn spec_hp_at(k: EnemyKind, wave: u32) -> u32 {
    if wave <= 1 {
        spec_base_hp(k)
    } else {
        hp_growth(spec_base_hp(k) as nat, (wave - 1) as nat) as u32
    }
}

impl EnemyKind {
    pub fn name(self) -> (s: &'static str)
        ensures
            s@ == spec_enemy_name(self),
    {
        proof {
            reveal_strlit("infantry");
            reveal_strlit("armor");
            reveal_strlit("flyer");
        }
        match self {
            EnemyKind::Infantry => "infantry",
            EnemyKind::Armor => "armor",
            EnemyKind::Flyer => "flyer",
        }
    }

    pub fn hp(self) -> (h: u32)
        ensures
            h == spec_base_hp(self),
    {
        match self {
            EnemyKind::Infantry => 14,
            EnemyKind::Armor => 80,
            EnemyKind::Flyer => 20,
        }
    }

    /// Armor plating: subtracted from every non-specialised hit.
    pub fn plating(self) -> (p: u32)
        ensures
            p == spec_plating(self),
    {
        match self {
            EnemyKind::Armor => 6,
            _ => 0,
        }
    }

    /// Hit points at the given wave: +8 % per wave, compounded.
    /// Whether the hit points at wave `wave` can be computed (see `hp_at`).
    pub fn hp_fits(self, wave: u32) -> (r: bool)
        ensures
            r == hp_at_fits(self, wave),
    {
        if wave < 2 {
            return true;
        }
        let ghost base = spec_base_hp(self) as nat;
        let mut hp: u64 = self.hp() as u64;
        let mut i: u32 = 0;
        while i < wave - 2
            invariant
                wave >= 2,
                i <= wave - 2,
                hp == hp_growth(base, i as nat),
                base == spec_base_hp(self),
            decreases wave - 2 - i,
        {
            if hp > u64::MAX / 108 {
                proof {
                    lemma_hp_growth_monotone(base, i as nat, (wave - 2) as nat);
                }
                return false;
            }
            hp = hp * 108 / 100;
            i += 1;
        }
        hp <= u64::MAX / 108
    }

    pub fn hp_at(self, wave: u32) -> (h: u32)
        requires
            hp_at_fits(self, wave),
        ensures
            h == spec_hp_at(self, wave),
    {
        let mut hp: u64 = self.hp() as u64;
        let mut i: u32 = 1;
        while i < wave
            invariant
                1 <= i,
                wave >= 1 ==> i <= wave,
                wave == 0 ==> i == 1,
                hp_at_fits(self, wave),
                hp == hp_growth(spec_base_hp(self) as nat, (i - 1) as nat),
            decreases wave - i,
        {
            proof {
                lemma_hp_growth_monotone(spec_base_hp(self) as nat, (i - 1) as nat, (wave - 2) as nat);
            }
            hp = hp * 108 / 100;
            i += 1;
        }
        hp as u32
    }

    /// Ticks between two one-cell moves.
    pub fn move_period(self) -> (p: u32)
        ensures
            p == spec_move_period(self),
    {
        match self {
            EnemyKind::Infantry => 2,
            EnemyKind::Armor => 4,
            EnemyKind::Flyer => 3,
        }
    }

    pub fn lives_cost(self) -> (c: u32)
        ensures
            c == spec_lives_cost(self),
    {
        match self {
            EnemyKind::Infantry => 1,
            EnemyKind::Armor => 3,
            EnemyKind::Flyer => 1,
        }
    }

    pub fn glyph(self) -> (c: char)
        ensures
            c == spec_enemy_glyph(self),
    {
        match self {
            EnemyKind::Infantry => 'i',
            EnemyKind::Armor => 'a',
            EnemyKind::Flyer => 'v',
        }
    }

    pub fn index(self) -> (i: usize)
        ensures
            i == spec_enemy_index(self),
    {
        match self {
            EnemyKind::Infantry => 0,
            EnemyKind::Armor => 1,
            EnemyKind::Flyer => 2,
        }
    }
}

#[derive(Clone, Copy, PartialEq, Eq, Debug, Structural)]
pub enum Phase {
    Preparation,
    GameOver,
}

#[derive(Clone, Copy, PartialEq, Eq, Debug, Structural)]
pub enum ErrorCode {
    PathBlocked,
    InsufficientGold,
    CellOccupied,
    NoMovesLeft,
    InvalidCell,
    WrongPhase,
    UnknownBuilding,
}

pub open spec fn spec_error_str(c: ErrorCode) -> Seq<char> {
    match c {
        ErrorCode::PathBlocked => "PATH_BLOCKED"@,
        ErrorCode::InsufficientGold => "INSUFFICIENT_GOLD"@,
        ErrorCode::CellOccupied => "CELL_OCCUPIED"@,
        ErrorCode::NoMovesLeft => "NO_MOVES_LEFT"@,
        ErrorCode::InvalidCell => "INVALID_CELL"@,
        ErrorCode::WrongPhase => "WRONG_PHASE"@,
        ErrorCode::UnknownBuilding => "UNKNOWN_BUILDING"@,
    }
}

pub open spec fn spec_error_message(c: ErrorCode) -> Seq<char> {
    match c {
        ErrorCode::PathBlocked => "Ce placement rendrait la sortie inaccessible."@,
        ErrorCode::InsufficientGold => "Or insuffisant."@,
        ErrorCode::CellOccupied => "Case déjà occupée."@,
        ErrorCode::NoMovesLeft => "Plus de déplacement disponible ce round."@,
        ErrorCode::InvalidCell => "Case hors plateau ou interdite."@,
        ErrorCode::WrongPhase => "Action impossible dans cette phase."@,
        ErrorCode::UnknownBuilding => "Bâtiment inconnu."@,
    }
}

impl ErrorCode {
    pub fn as_str(self) -> (s: &'static str)
        ensures
            s@ == spec_error_str(self),
    {
        proof {
            reveal_strlit("PATH_BLOCKED");
            reveal_strlit("INSUFFICIENT_GOLD");
            reveal_strlit("CELL_OCCUPIED");
            reveal_strlit("NO_MOVES_LEFT");
            reveal_strlit("INVALID_CELL");
            reveal_strlit("WRONG_PHASE");
            reveal_strlit("UNKNOWN_BUILDING");
        }
        match self {
            ErrorCode::PathBlocked => "PATH_BLOCKED",
            ErrorCode::InsufficientGold => "INSUFFICIENT_GOLD",
            ErrorCode::CellOccupied => "CELL_OCCUPIED",
            ErrorCode::NoMovesLeft => "NO_MOVES_LEFT",
            ErrorCode::InvalidCell => "INVALID_CELL",
            ErrorCode::WrongPhase => "WRONG_PHASE",
            ErrorCode::UnknownBuilding => "UNKNOWN_BUILDING",
        }
    }

    pub fn message(self) -> (s: &'static str)
        ensures
            s@ == spec_error_message(self),
    {
        proof {
            reveal_strlit("Ce placement rendrait la sortie inaccessible.");
            reveal_strlit("Or insuffisant.");
            reveal_strlit("Case déjà occupée.");
            reveal_strlit("Plus de déplacement disponible ce round.");
            reveal_strlit("Case hors plateau ou interdite.");
            reveal_strlit("Action impossible dans cette phase.");
            reveal_strlit("Bâtiment inconnu.");
        }
        match self {
            ErrorCode::PathBlocked => "Ce placement rendrait la sortie inaccessible.",
            ErrorCode::InsufficientGold => "Or insuffisant.",
            ErrorCode::CellOccupied => "Case déjà occupée.",
            ErrorCode::NoMovesLeft => "Plus de déplacement disponible ce round.",
            ErrorCode::InvalidCell => "Case hors plateau ou interdite.",
            ErrorCode::WrongPhase => "Action impossible dans cette phase.",
            ErrorCode::UnknownBuilding => "Bâtiment inconnu.",
        }
    }
}

#[derive(Clone, Copy, Debug)]
pub enum Action {
    Build { kind: BuildingType, pos: Pos },
    Sell { id: u32 },
    Move { id: u32, pos: Pos },
    EndTurn,
}


/// More hit points to start with never give fewer later.
proof fn lemma_hp_growth_base_monotone(b1: nat, b2: nat, n: nat)
    requires
        b1 <= b2,
    ensures
        hp_growth(b1, n) <= hp_growth(b2, n),
    decreases n,
{
    if n > 0 {
        lemma_hp_growth_base_monotone(b1, b2, (n - 1) as nat);
        let h1 = hp_growth(b1, (n - 1) as nat);
        let h2 = hp_growth(b2, (n - 1) as nat);
        assert(h1 * 108 / 100 <= h2 * 108 / 100) by (nonlinear_arith)
            requires
                h1 <= h2,
        ;
    }
}

/// The toughest enemy, armor, after 200 waves of growth: far below
/// `u32::MAX`. Each step follows from the one before it.
#[verifier::rlimit(100)]
proof fn lemma_hp_growth_200()
    ensures
        hp_growth(80, 200) == 358336849,
{
    assert(hp_growth(80, 0) == 80);
    assert(hp_growth(80, 1) == 86);
    assert(hp_growth(80, 2) == 92);
    assert(hp_growth(80, 3) == 99);
    assert(hp_growth(80, 4) == 106);
    assert(hp_growth(80, 5) == 114);
    assert(hp_growth(80, 6) == 123);
    assert(hp_growth(80, 7) == 132);
    assert(hp_growth(80, 8) == 142);
    assert(hp_growth(80, 9) == 153);
    assert(hp_growth(80, 10) == 165);
    assert(hp_growth(80, 11) == 178);
    assert(hp_growth(80, 12) == 192);
    assert(hp_growth(80, 13) == 207);
    assert(hp_growth(80, 14) == 223);
    assert(hp_growth(80, 15) == 240);
    assert(hp_growth(80, 16) == 259);
    assert(hp_growth(80, 17) == 279);
    assert(hp_growth(80, 18) == 301);
    assert(hp_growth(80, 19) == 325);
    assert(hp_growth(80, 20) == 351);
    assert(hp_growth(80, 21) == 379);
    assert(hp_growth(80, 22) == 409);
    assert(hp_growth(80, 23) == 441);
    assert(hp_growth(80, 24) == 476);
    assert(hp_growth(80, 25) == 514);
    assert(hp_growth(80, 26) == 555);
    assert(hp_growth(80, 27) == 599);
    assert(hp_growth(80, 28) == 646);
    assert(hp_growth(80, 29) == 697);
    assert(hp_growth(80, 30) == 752);
    assert(hp_growth(80, 31) == 812);
    assert(hp_growth(80, 32) == 876);
    assert(hp_growth(80, 33) == 946);
    assert(hp_growth(80, 34) == 1021);
    assert(hp_growth(80, 35) == 1102);
    assert(hp_growth(80, 36) == 1190);
    assert(hp_growth(80, 37) == 1285);
    assert(hp_growth(80, 38) == 1387);
    assert(hp_growth(80, 39) == 1497);
    assert(hp_growth(80, 40) == 1616);
    assert(hp_growth(80, 41) == 1745);
    assert(hp_growth(80, 42) == 1884);
    assert(hp_growth(80, 43) == 2034);
    assert(hp_growth(80, 44) == 2196);
    assert(hp_growth(80, 45) == 2371);
    assert(hp_growth(80, 46) == 2560);
    assert(hp_growth(80, 47) == 2764);
    assert(hp_growth(80, 48) == 2985);
    assert(hp_growth(80, 49) == 3223);
    assert(hp_growth(80, 50) == 3480);
    assert(hp_growth(80, 51) == 3758);
    assert(hp_growth(80, 52) == 4058);
    assert(hp_growth(80, 53) == 4382);
    assert(hp_growth(80, 54) == 4732);
    assert(hp_growth(80, 55) == 5110);
    assert(hp_growth(80, 56) == 5518);
    assert(hp_growth(80, 57) == 5959);
    assert(hp_growth(80, 58) == 6435);
    assert(hp_growth(80, 59) == 6949);
    assert(hp_growth(80, 60) == 7504);
    assert(hp_growth(80, 61) == 8104);
    assert(hp_growth(80, 62) == 8752);
    assert(hp_growth(80, 63) == 9452);
    assert(hp_growth(80, 64) == 10208);
    assert(hp_growth(80, 65) == 11024);
    assert(hp_growth(80, 66) == 11905);
    assert(hp_growth(80, 67) == 12857);
    assert(hp_growth(80, 68) == 13885);
    assert(hp_growth(80, 69) == 14995);
    assert(hp_growth(80, 70) == 16194);
    assert(hp_growth(80, 71) == 17489);
    assert(hp_growth(80, 72) == 18888);
    assert(hp_growth(80, 73) == 20399);
    assert(hp_growth(80, 74) == 22030);
    assert(hp_growth(80, 75) == 23792);
    assert(hp_growth(80, 76) == 25695);
    assert(hp_growth(80, 77) == 27750);
    assert(hp_growth(80, 78) == 29970);
    assert(hp_growth(80, 79) == 32367);
    assert(hp_growth(80, 80) == 34956);
    assert(hp_growth(80, 81) == 37752);
    assert(hp_growth(80, 82) == 40772);
    assert(hp_growth(80, 83) == 44033);
    assert(hp_growth(80, 84) == 47555);
    assert(hp_growth(80, 85) == 51359);
    assert(hp_growth(80, 86) == 55467);
    assert(hp_growth(80, 87) == 59904);
    assert(hp_growth(80, 88) == 64696);
    assert(hp_growth(80, 89) == 69871);
    assert(hp_growth(80, 90) == 75460);
    assert(hp_growth(80, 91) == 81496);
    assert(hp_growth(80, 92) == 88015);
    assert(hp_growth(80, 93) == 95056);
    assert(hp_growth(80, 94) == 102660);
    assert(hp_growth(80, 95) == 110872);
    assert(hp_growth(80, 96) == 119741);
    assert(hp_growth(80, 97) == 129320);
    assert(hp_growth(80, 98) == 139665);
    assert(hp_growth(80, 99) == 150838);
    assert(hp_growth(80, 100) == 162905);
    assert(hp_growth(80, 101) == 175937);
    assert(hp_growth(80, 102) == 190011);
    assert(hp_growth(80, 103) == 205211);
    assert(hp_growth(80, 104) == 221627);
    assert(hp_growth(80, 105) == 239357);
    assert(hp_growth(80, 106) == 258505);
    assert(hp_growth(80, 107) == 279185);
    assert(hp_growth(80, 108) == 301519);
    assert(hp_growth(80, 109) == 325640);
    assert(hp_growth(80, 110) == 351691);
    assert(hp_growth(80, 111) == 379826);
    assert(hp_growth(80, 112) == 410212);
    assert(hp_growth(80, 113) == 443028);
    assert(hp_growth(80, 114) == 478470);
    assert(hp_growth(80, 115) == 516747);
    assert(hp_growth(80, 116) == 558086);
    assert(hp_growth(80, 117) == 602732);
    assert(hp_growth(80, 118) == 650950);
    assert(hp_growth(80, 119) == 703026);
    assert(hp_growth(80, 120) == 759268);
    assert(hp_growth(80, 121) == 820009);
    assert(hp_growth(80, 122) == 885609);
    assert(hp_growth(80, 123) == 956457);
    assert(hp_growth(80, 124) == 1032973);
    assert(hp_growth(80, 125) == 1115610);
    assert(hp_growth(80, 126) == 1204858);
    assert(hp_growth(80, 127) == 1301246);
    assert(hp_growth(80, 128) == 1405345);
    assert(hp_growth(80, 129) == 1517772);
    assert(hp_growth(80, 130) == 1639193);
    assert(hp_growth(80, 131) == 1770328);
    assert(hp_growth(80, 132) == 1911954);
    assert(hp_growth(80, 133) == 2064910);
    assert(hp_growth(80, 134) == 2230102);
    assert(hp_growth(80, 135) == 2408510);
    assert(hp_growth(80, 136) == 2601190);
    assert(hp_growth(80, 137) == 2809285);
    assert(hp_growth(80, 138) == 3034027);
    assert(hp_growth(80, 139) == 3276749);
    assert(hp_growth(80, 140) == 3538888);
    assert(hp_growth(80, 141) == 3821999);
    assert(hp_growth(80, 142) == 4127758);
    assert(hp_growth(80, 143) == 4457978);
    assert(hp_growth(80, 144) == 4814616);
    assert(hp_growth(80, 145) == 5199785);
    assert(hp_growth(80, 146) == 5615767);
    assert(hp_growth(80, 147) == 6065028);
    assert(hp_growth(80, 148) == 6550230);
    assert(hp_growth(80, 149) == 7074248);
    assert(hp_growth(80, 150) == 7640187);
    assert(hp_growth(80, 151) == 8251401);
    assert(hp_growth(80, 152) == 8911513);
    assert(hp_growth(80, 153) == 9624434);
    assert(hp_growth(80, 154) == 10394388);
    assert(hp_growth(80, 155) == 11225939);
    assert(hp_growth(80, 156) == 12124014);
    assert(hp_growth(80, 157) == 13093935);
    assert(hp_growth(80, 158) == 14141449);
    assert(hp_growth(80, 159) == 15272764);
    assert(hp_growth(80, 160) == 16494585);
    assert(hp_growth(80, 161) == 17814151);
    assert(hp_growth(80, 162) == 19239283);
    assert(hp_growth(80, 163) == 20778425);
    assert(hp_growth(80, 164) == 22440699);
    assert(hp_growth(80, 165) == 24235954);
    assert(hp_growth(80, 166) == 26174830);
    assert(hp_growth(80, 167) == 28268816);
    assert(hp_growth(80, 168) == 30530321);
    assert(hp_growth(80, 169) == 32972746);
    assert(hp_growth(80, 170) == 35610565);
    assert(hp_growth(80, 171) == 38459410);
    assert(hp_growth(80, 172) == 41536162);
    assert(hp_growth(80, 173) == 44859054);
    assert(hp_growth(80, 174) == 48447778);
    assert(hp_growth(80, 175) == 52323600);
    assert(hp_growth(80, 176) == 56509488);
    assert(hp_growth(80, 177) == 61030247);
    assert(hp_growth(80, 178) == 65912666);
    assert(hp_growth(80, 179) == 71185679);
    assert(hp_growth(80, 180) == 76880533);
    assert(hp_growth(80, 181) == 83030975);
    assert(hp_growth(80, 182) == 89673453);
    assert(hp_growth(80, 183) == 96847329);
    assert(hp_growth(80, 184) == 104595115);
    assert(hp_growth(80, 185) == 112962724);
    assert(hp_growth(80, 186) == 121999741);
    assert(hp_growth(80, 187) == 131759720);
    assert(hp_growth(80, 188) == 142300497);
    assert(hp_growth(80, 189) == 153684536);
    assert(hp_growth(80, 190) == 165979298);
    assert(hp_growth(80, 191) == 179257641);
    assert(hp_growth(80, 192) == 193598252);
    assert(hp_growth(80, 193) == 209086112);
    assert(hp_growth(80, 194) == 225813000);
    assert(hp_growth(80, 195) == 243878040);
    assert(hp_growth(80, 196) == 263388283);
    assert(hp_growth(80, 197) == 284459345);
    assert(hp_growth(80, 198) == 307216092);
    assert(hp_growth(80, 199) == 331793379);
    assert(hp_growth(80, 200) == 358336849);
}

/// Hit points grow by 8 % a wave, rounded down, from wave 1 on; waves 0 and
/// 1 have the base hit points. Up to wave 200 nothing is truncated.
pub proof fn lemma_hp_at_grows(k: EnemyKind, wave: u32)
    requires
        1 <= wave <= 199,
    ensures
        spec_hp_at(k, 0) == spec_base_hp(k),
        spec_hp_at(k, 1) == spec_base_hp(k),
        spec_hp_at(k, (wave + 1) as u32) == spec_hp_at(k, wave) * 108 / 100,
        spec_hp_at(k, (wave + 1) as u32) >= spec_hp_at(k, wave),
{
    let base = spec_base_hp(k) as nat;
    lemma_hp_growth_200();
    lemma_hp_growth_monotone(base, wave as nat, 200);
    lemma_hp_growth_base_monotone(base, 80, 200);
    lemma_hp_growth_monotone(base, (wave - 1) as nat, wave as nat);
    assert(hp_growth(base, wave as nat) == hp_growth(base, (wave - 1) as nat) * 108 / 100);
}

} // verus!
