//! The human client's logic: the cursor, the keys and what they do to the
//! game, and the texts of the side panel. Drawing is left to the terminal front end.
use vstd::prelude::*;
use crate::types::{
    spec_building_glyph, Pos, BuildingType, EnemyKind, Action, ErrorCode, BOARD_W, BOARD_H, in_board, spec_building_types,
    building_types, spec_enemy_name, spec_error_str, spec_error_message, spec_building_name, spec_cost, ACTION_LIMIT,
};
use crate::sim::{ReportView, WaveReport};
use crate::text::{push_decimal, spec_decimal, decimal};
use crate::game::{Game, GameView, game_wf, board_wf, spec_game_income, apply_fits, spec_apply, spec_new_game, pos_index, opt_building};
use crate::waves::{spec_incoming_intel, incoming_intel, wave_composition, spec_wave_composition};

verus! {

/// A key press, as far as the game cares.
#[derive(Clone, Copy, PartialEq, Eq, Debug, Structural)]
pub enum Key {
    Left,
    Right,
    Up,
    Down,
    Enter,
    Char(char),
    Other,
}

/// A game at the terminal: the cursor, the building being moved, the last message.
pub struct App {
    pub game: Game,
    pub seed: u64,
    pub cursor: Pos,
    /// Building selected for a move.
    pub moving: Option<u32>,
    pub message: String,
}

/// The content of the client.
#[verifier::ext_equal]
pub struct AppView {
    pub game: GameView,
    pub seed: u64,
    pub cursor: Pos,
    pub moving: Option<u32>,
    pub message: Seq<char>,
}

impl View for App {
    type V = AppView;

    open spec fn view(&self) -> AppView {
        AppView {
            game: self.game@,
            seed: self.seed,
            cursor: self.cursor,
            moving: self.moving,
            message: self.message@,
        }
    }
}

/// A client is sound when its game is and its cursor is on the board.
pub open spec fn app_wf(a: AppView) -> bool {
    game_wf(a.game) && in_board(a.cursor)
}

pub open spec fn spec_new_app(seed: u64) -> AppView {
    AppView {
        game: spec_new_game(seed),
        seed,
        cursor: Pos { x: (BOARD_W / 2) as i32, y: (BOARD_H / 2) as i32 },
        moving: None,
        message: "Construisez, puis Entrée pour lancer la vague."@,
    }
}

/// The message shown after an action.
pub open spec fn action_message(r: Result<(), ErrorCode>) -> Seq<char> {
    match r {
        Ok(()) => Seq::empty(),
        Err(e) => spec_error_str(e) + " — "@ + spec_error_message(e),
    }
}

/// The client after `action` was applied.
pub open spec fn spec_act(a: AppView, action: Action) -> AppView {
    let (g, r) = spec_apply(a.game, action);
    AppView { game: g, message: action_message(r), ..a }
}

/// The cursor step of a key, if it moves the cursor.
pub open spec fn key_step(k: Key) -> (int, int) {
    match k {
        Key::Left => (-1, 0),
        Key::Char('h') => (-1, 0),
        Key::Right => (1, 0),
        Key::Char('l') => (1, 0),
        Key::Up => (0, -1),
        Key::Char('k') => (0, -1),
        Key::Down => (0, 1),
        Key::Char('j') => (0, 1),
        _ => (0, 0),
    }
}

pub open spec fn clamp(v: int, lo: int, hi: int) -> int {
    if v < lo {
        lo
    } else if v > hi {
        hi
    } else {
        v
    }
}

/// The building standing under the cursor.
pub open spec fn under_cursor(a: AppView) -> Option<int> {
    pos_index(a.game.buildings, a.cursor, a.game.buildings.len() as int)
}

/// The action a key asks of the game, if any.
pub open spec fn key_action(a: AppView, k: Key) -> Option<Action> {
    if key_step(k) != (0int, 0int) {
        None
    } else {
        match k {
            Key::Char(c) => if '1' <= c <= '5' {
                Some(Action::Build { kind: spec_building_types()[c as int - '1' as int], pos: a.cursor })
            } else if c == 's' {
                match under_cursor(a) {
                    Some(i) => Some(Action::Sell { id: a.game.buildings[i].id }),
                    None => None,
                }
            } else if c == ' ' {
                match a.moving {
                    Some(id) => Some(Action::Move { id, pos: a.cursor }),
                    None => Some(Action::EndTurn),
                }
            } else {
                None
            },
            Key::Enter => match a.moving {
                Some(id) => Some(Action::Move { id, pos: a.cursor }),
                None => Some(Action::EndTurn),
            },
            _ => None,
        }
    }
}

/// The client after a key, and whether to go on.
pub open spec fn spec_key(a: AppView, k: Key) -> (AppView, bool) {
    let (dx, dy) = key_step(k);
    if (dx, dy) != (0int, 0int) {
        let cursor = Pos {
            x: clamp(a.cursor.x + dx, 0, BOARD_W - 1) as i32,
            y: clamp(a.cursor.y + dy, 0, BOARD_H - 1) as i32,
        };
        (AppView { cursor, ..a }, true)
    } else {
        match k {
            Key::Char('q') => (a, false),
            Key::Char('r') => (spec_new_app(a.seed), true),
            Key::Char('s') => match under_cursor(a) {
                Some(i) => (spec_act(a, key_action(a, k)->0), true),
                None => (AppView { message: "Rien à vendre ici."@, ..a }, true),
            },
            Key::Char('m') => match a.moving {
                None => match under_cursor(a) {
                    Some(i) => (
                        AppView {
                            moving: Some(a.game.buildings[i].id),
                            message: "Déplacement : choisissez la case, Entrée pour valider."@,
                            ..a
                        },
                        true,
                    ),
                    None => (AppView { message: "Aucun bâtiment sous le curseur."@, ..a }, true),
                },
                Some(_) => (AppView { moving: None, message: "Déplacement annulé."@, ..a }, true),
            },
            Key::Enter => (spec_act(AppView { moving: None, ..a }, key_action(a, k)->0), true),
            Key::Char(' ') => (spec_act(AppView { moving: None, ..a }, key_action(a, k)->0), true),
            _ => match key_action(a, k) {
                Some(action) => (spec_act(a, action), true),
                None => (a, true),
            },
        }
    }
}

/// A key can be handled: the action it asks for overflows nothing.
pub open spec fn key_fits(a: AppView, k: Key) -> bool {
    match key_action(a, k) {
        Some(action) => apply_fits(a.game, action),
        None => true,
    }
}

impl App {
    pub fn new(seed: u64) -> (a: Self)
        ensures
            a@ == spec_new_app(seed),
            app_wf(a@),
    {
        App {
            game: Game::new(seed),
            seed,
            cursor: Pos::new(BOARD_W / 2, BOARD_H / 2),
            moving: None,
            message: String::from_str("Construisez, puis Entrée pour lancer la vague."),
        }
    }

    /// Applies an action and shows its refusal, if any.
    pub fn act(&mut self, action: Action)
        requires
            app_wf(old(self)@),
            apply_fits(old(self)@.game, action),
        ensures
            final(self)@ == spec_act(old(self)@, action),
            app_wf(final(self)@),
    {
        match self.game.apply(action) {
            Ok(()) => self.message = String::new(),
            Err(e) => {
                let mut m = String::from_str(e.as_str());
                m.append(" — ");
                m.append(e.message());
                self.message = m;
            },
        }
    }

    /// The action a key asks of the game, if any.
    pub fn key_request(&self, code: Key) -> (r: Option<Action>)
        ensures
            r == key_action(self@, code),
    {
        match code {
            Key::Char(c) => {
                if c == 'h' || c == 'l' || c == 'k' || c == 'j' {
                    None
                } else if '1' <= c && c <= '5' {
                    let kinds = building_types();
                    Some(Action::Build { kind: kinds[(c as u32 - '1' as u32) as usize], pos: self.cursor })
                } else if c == 's' {
                    match self.game.building_at(self.cursor) {
                        Some(b) => Some(Action::Sell { id: b.id }),
                        None => None,
                    }
                } else if c == ' ' {
                    match self.moving {
                        Some(id) => Some(Action::Move { id, pos: self.cursor }),
                        None => Some(Action::EndTurn),
                    }
                } else {
                    None
                }
            },
            Key::Enter => match self.moving {
                Some(id) => Some(Action::Move { id, pos: self.cursor }),
                None => Some(Action::EndTurn),
            },
            _ => None,
        }
    }

    /// Whether `key` can run: the action it asks for overflows nothing.
    pub fn can_key(&self, code: Key) -> (r: bool)
        requires
            app_wf(self@),
        ensures
            r == key_fits(self@, code),
    {
        match self.key_request(code) {
            Some(action) => self.game.can_apply(action),
            None => true,
        }
    }

    /// Handles a key; `false` means quit.
    pub fn key(&mut self, code: Key) -> (go_on: bool)
        requires
            app_wf(old(self)@),
            key_fits(old(self)@, code),
        ensures
            (final(self)@, go_on) == spec_key(old(self)@, code),
            app_wf(final(self)@),
    {
        let ghost a = self@;
        let (dx, dy): (i32, i32) = match code {
            Key::Left | Key::Char('h') => (-1, 0),
            Key::Right | Key::Char('l') => (1, 0),
            Key::Up | Key::Char('k') => (0, -1),
            Key::Down | Key::Char('j') => (0, 1),
            _ => (0, 0),
        };
        if dx != 0 || dy != 0 {
            let x = self.cursor.x + dx;
            let y = self.cursor.y + dy;
            self.cursor.x = if x < 0 {
                0
            } else if x > BOARD_W - 1 {
                BOARD_W - 1
            } else {
                x
            };
            self.cursor.y = if y < 0 {
                0
            } else if y > BOARD_H - 1 {
                BOARD_H - 1
            } else {
                y
            };
            assert(self@ =~= spec_key(a, code).0);
            return true;
        }
        match code {
            Key::Char('q') => return false,
            Key::Char('r') => {
                *self = App::new(self.seed);
            },
            Key::Char(c) if '1' <= c && c <= '5' => {
                let kinds = building_types();
                let kind = kinds[(c as u32 - '1' as u32) as usize];
                let pos = self.cursor;
                self.act(Action::Build { kind, pos });
            },
            Key::Char('s') => match self.game.building_at(self.cursor) {
                Some(b) => {
                    let id = b.id;
                    self.act(Action::Sell { id });
                },
                None => {
                    self.message = String::from_str("Rien à vendre ici.");
                },
            },
            Key::Char('m') => match self.moving {
                None => match self.game.building_at(self.cursor) {
                    Some(b) => {
                        self.moving = Some(b.id);
                        self.message = String::from_str("Déplacement : choisissez la case, Entrée pour valider.");
                    },
                    None => {
                        self.message = String::from_str("Aucun bâtiment sous le curseur.");
                    },
                },
                Some(_) => {
                    self.moving = None;
                    self.message = String::from_str("Déplacement annulé.");
                },
            },
            Key::Enter | Key::Char(' ') => {
                let moving = self.moving;
                self.moving = None;
                let pos = self.cursor;
                match moving {
                    Some(id) => self.act(Action::Move { id, pos }),
                    None => self.act(Action::EndTurn),
                }
            },
            _ => {},
        }
        assert(self@ =~= spec_key(a, code).0);
        true
    }
}


// ------------------------------------------------------------ panel texts

pub open spec fn kind_at(i: int) -> EnemyKind {
    if i == 0 {
        EnemyKind::Infantry
    } else if i == 1 {
        EnemyKind::Armor
    } else {
        EnemyKind::Flyer
    }
}

/// How a count of enemies of kind number `i` is written: glyph, count, name.
pub open spec fn comp_part(c: Seq<u32>, i: int) -> Seq<char> {
    seq![crate::types::spec_enemy_glyph(kind_at(i))] + spec_decimal(c[i] as nat) + " "@ + spec_enemy_name(kind_at(i))
}

/// The kinds present among the first `n`, separated by commas.
pub open spec fn comp_line(c: Seq<u32>, n: int) -> Seq<char>
    decreases n,
{
    if n <= 0 {
        Seq::empty()
    } else {
        let prev = comp_line(c, n - 1);
        if c[n - 1] > 0 {
            if prev.len() == 0 {
                comp_part(c, n - 1)
            } else {
                prev + ", "@ + comp_part(c, n - 1)
            }
        } else {
            prev
        }
    }
}

fn glyph_str(k: EnemyKind) -> (s: &'static str)
    ensures
        s@ == seq![crate::types::spec_enemy_glyph(k)],
{
    proof {
        reveal_strlit("i");
        reveal_strlit("a");
        reveal_strlit("v");
    }
    match k {
        EnemyKind::Infantry => "i",
        EnemyKind::Armor => "a",
        EnemyKind::Flyer => "v",
    }
}

/// What a cell of the board shows: the entry and the exit first, then a
/// building (marked when it is the one being moved), then the enemies' path.
#[derive(Clone, Copy, PartialEq, Eq, Debug, Structural)]
pub enum Cell {
    Entry,
    Exit,
    Building { glyph: char, moving: bool },
    Path,
    Empty,
}

pub open spec fn spec_cell(a: AppView, path: Seq<Pos>, p: Pos) -> Cell {
    if p == a.game.entry {
        Cell::Entry
    } else if p == a.game.exit {
        Cell::Exit
    } else {
        match pos_index(a.game.buildings, p, a.game.buildings.len() as int) {
            Some(i) => Cell::Building {
                glyph: spec_building_glyph(a.game.buildings[i].kind),
                moving: a.moving == Some(a.game.buildings[i].id),
            },
            None => if path.contains(p) {
                Cell::Path
            } else {
                Cell::Empty
            },
        }
    }
}

impl App {
    /// What cell `p` shows, with `path` drawn as the enemies' route.
    pub fn cell(&self, path: &[Pos], p: Pos) -> (c: Cell)
        ensures
            c == spec_cell(self@, path@, p),
    {
        if p == self.game.entry {
            return Cell::Entry;
        }
        if p == self.game.exit {
            return Cell::Exit;
        }
        match self.game.building_at(p) {
            Some(b) => {
                let moving = match self.moving {
                    Some(id) => id == b.id,
                    None => false,
                };
                Cell::Building { glyph: b.kind.glyph(), moving }
            },
            None => {
                let mut on_path = false;
                let mut i: usize = 0;
                while i < path.len()
                    invariant
                        i <= path@.len(),
                        on_path <==> exists|j: int| 0 <= j < i && path@[j] == p,
                    decreases path@.len() - i,
                {
                    if path[i] == p {
                        on_path = true;
                    }
                    i += 1;
                }
                if on_path {
                    Cell::Path
                } else {
                    Cell::Empty
                }
            },
        }
    }
}

/// A composition in one line, e.g. `i8 infantry, a2 armor`; kinds absent from
/// the wave are left out.
pub fn composition_line(c: [u32; 3]) -> (s: String)
    ensures
        s@ == comp_line(c@, 3),
{
    let kinds = crate::types::enemy_kinds();
    let mut s = String::new();
    let mut i: usize = 0;
    while i < 3
        invariant
            i <= 3,
            kinds@ == crate::types::spec_enemy_kinds(),
            s@ == comp_line(c@, i as int),
        decreases 3 - i,
    {
        let k = kinds[i];
        assert(k == kind_at(i as int));
        if c[i] > 0 {
            let ghost prev = s@;
            if s.unicode_len() > 0 {
                s.append(", ");
            }
            s.append(glyph_str(k));
            push_decimal(&mut s, c[i] as u64);
            s.append(" ");
            s.append(k.name());
            assert(s@ =~= comp_line(c@, i as int + 1));
        }
        i += 1;
    }
    s
}

pub open spec fn spec_describe(kind: BuildingType) -> Seq<char> {
    match kind {
        BuildingType::Sniper => "longue portée, seul anti-aérien"@,
        BuildingType::Flamethrower => "AoE au contact, aveugle au ciel"@,
        BuildingType::AntiArmor => "perce le blindage, faible sinon"@,
        BuildingType::Mortar => "AoE longue portée, cadence lente"@,
        BuildingType::Eco => "+8 or/vague, ne défend pas"@,
    }
}

/// The role of a building type, in a few words.
pub fn describe(kind: BuildingType) -> (s: &'static str)
    ensures
        s@ == spec_describe(kind),
{
    match kind {
        BuildingType::Sniper => "longue portée, seul anti-aérien",
        BuildingType::Flamethrower => "AoE au contact, aveugle au ciel",
        BuildingType::AntiArmor => "perce le blindage, faible sinon",
        BuildingType::Mortar => "AoE longue portée, cadence lente",
        BuildingType::Eco => "+8 or/vague, ne défend pas",
    }
}

/// The intel line of the panel: the announcement of wave `wave`, nothing past wave 100.
pub fn intel(seed: u64, wave: u32) -> (s: String)
    ensures
        s@ == (if wave > 100 {
            Seq::empty()
        } else {
            spec_incoming_intel(seed, wave)
        }),
{
    if wave > 100 {
        return String::new();
    }
    incoming_intel(seed, wave)
}


// ------------------------------------------------------------ the side panel

/// `n` spaces (none when `n` is not positive).
pub open spec fn spaces(n: int) -> Seq<char> {
    Seq::new(if n > 0 { n as nat } else { 0 }, |i: int| ' ')
}

/// `t` left-aligned in a field of `w` characters.
pub open spec fn pad_right(t: Seq<char>, w: int) -> Seq<char> {
    t + spaces(w - t.len())
}

/// `t` right-aligned in a field of `w` characters.
pub open spec fn pad_left(t: Seq<char>, w: int) -> Seq<char> {
    spaces(w - t.len()) + t
}

/// The panel's first line: wave, lives and gold.
pub open spec fn status_line(g: GameView) -> Seq<char> {
    "vague "@ + spec_decimal(g.wave as nat) + "   ♥ "@ + spec_decimal(g.lives as nat) + "   ⛁ "@ + spec_decimal(
        g.gold as nat,
    )
}

/// The panel's second line: income, moves left, actions spent.
pub open spec fn economy_line(g: GameView) -> Seq<char> {
    "revenu "@ + spec_decimal(spec_game_income(g.buildings) as nat) + "/vague   déplacements "@ + spec_decimal(
        g.moves_remaining as nat,
    ) + "   actions "@ + spec_decimal(g.actions_used as nat) + "/"@ + spec_decimal(ACTION_LIMIT as nat)
}

/// The shop line of building type number `i` (from 0).
pub open spec fn shop_line(i: int, k: BuildingType) -> Seq<char> {
    "  ["@ + spec_decimal((i + 1) as nat) + "] "@ + seq![spec_building_glyph(k)] + " "@ + pad_right(
        spec_building_name(k),
        13,
    ) + " "@ + pad_left(spec_decimal(spec_cost(k) as nat), 3) + " or  "@ + spec_describe(k)
}

/// The first `n` shop lines, each with whether the gold `gold` buys it.
pub open spec fn shop_lines(gold: u32, n: int) -> Seq<(Seq<char>, bool)>
    decreases n,
{
    if n <= 0 {
        Seq::empty()
    } else {
        let k = spec_building_types()[n - 1];
        shop_lines(gold, n - 1).push((shop_line(n - 1, k), spec_cost(k) <= gold))
    }
}

/// The damage of the first `n` entries, as `b<id>:<damage>` separated by spaces.
pub open spec fn damage_text(d: Seq<(u32, u32)>, n: int) -> Seq<char>
    decreases n,
{
    if n <= 0 {
        Seq::empty()
    } else {
        damage_text(d, n - 1) + (if n > 1 {
            " "@
        } else {
            Seq::empty()
        }) + "b"@ + spec_decimal(d[n - 1].0 as nat) + ":"@ + spec_decimal(d[n - 1].1 as nat)
    }
}

/// The report block of the panel: a blank line, the title, the counts, and
/// the damage per building when there was any.
pub open spec fn report_block(r: ReportView) -> Seq<(Seq<char>, bool)> {
    seq![
        (Seq::<char>::empty(), true),
        ("RAPPORT VAGUE "@ + spec_decimal(r.wave as nat), true),
        (
            "  tués "@ + comp_line(r.kills, 3) + " · fuites "@ + comp_line(r.leaked, 3) + " · -"@ + spec_decimal(
                r.lives_lost as nat,
            ) + " vies"@,
            true,
        ),
    ] + if r.damage_by_building.len() > 0 {
        seq![("  dégâts "@ + damage_text(r.damage_by_building, r.damage_by_building.len() as int), true)]
    } else {
        Seq::empty()
    }
}

/// The intel line of the panel for the wave after `wave`.
pub open spec fn panel_intel(seed: u64, wave: int) -> Seq<char> {
    if wave > 100 {
        Seq::empty()
    } else {
        spec_incoming_intel(seed, wave as u32)
    }
}

/// The side panel of the terminal client, line by line; the flag of a shop
/// line says whether the gold buys it (other lines carry `true`).
pub open spec fn spec_panel(g: GameView) -> Seq<(Seq<char>, bool)> {
    seq![
        (status_line(g), true),
        (economy_line(g), true),
        (Seq::<char>::empty(), true),
        ("VAGUE ENTRANTE"@, true),
        (comp_line(spec_wave_composition(g.seed, g.wave), 3), true),
        (panel_intel(g.seed, g.wave + 1), true),
        (Seq::<char>::empty(), true),
        ("BÂTIMENTS"@, true),
    ] + shop_lines(g.gold, 5) + match g.last_report {
        Some(r) => report_block(r),
        None => Seq::empty(),
    }
}

/// Appends `n` spaces.
fn push_spaces(s: &mut String, n: usize)
    ensures
        final(s)@ == old(s)@ + spaces(n as int),
{
    let ghost start = s@;
    let mut i: usize = 0;
    while i < n
        invariant
            i <= n,
            s@ == start + spaces(i as int),
        decreases n - i,
    {
        s.append(" ");
        proof {
            reveal_strlit(" ");
            assert(s@ =~= start + spaces(i + 1));
        }
        i += 1;
    }
}

/// Lines whose texts and flags are those of `t`.
pub open spec fn shows_lines(v: Seq<(String, bool)>, t: Seq<(Seq<char>, bool)>) -> bool {
    &&& v.len() == t.len()
    &&& forall|i: int| 0 <= i < v.len() ==> (#[trigger] v[i]).0@ == t[i].0 && v[i].1 == t[i].1
}

/// Appends the lines of `more` to `lines`.
fn append_lines(lines: &mut Vec<(String, bool)>, more: Vec<(String, bool)>, Ghost(t1): Ghost<Seq<(Seq<char>, bool)>>, Ghost(t2): Ghost<Seq<(Seq<char>, bool)>>)
    requires
        shows_lines(old(lines)@, t1),
        shows_lines(more@, t2),
    ensures
        shows_lines(final(lines)@, t1 + t2),
{
    let mut more = more;
    let ghost m = more@;
    let mut j: usize = 0;
    let n = more.len();
    while j < n
        invariant
            n == m.len(),
            j <= n,
            more@ == m.subrange(j as int, n as int),
            lines@.len() == t1.len() + j,
            forall|i: int| 0 <= i < lines@.len() ==> (#[trigger] lines@[i]).0@ == (t1 + t2)[i].0 && lines@[i].1 == (t1 + t2)[i].1,
            shows_lines(m, t2),
        decreases n - j,
    {
        let item = more.remove(0);
        proof {
            assert(item == m[j as int]);
            assert(more@ =~= m.subrange(j + 1, n as int));
        }
        lines.push(item);
        j += 1;
    }
}

fn building_glyph_str(k: BuildingType) -> (s: &'static str)
    ensures
        s@ == seq![spec_building_glyph(k)],
{
    proof {
        reveal_strlit("S");
        reveal_strlit("F");
        reveal_strlit("A");
        reveal_strlit("M");
        reveal_strlit("E");
    }
    match k {
        BuildingType::Sniper => "S",
        BuildingType::Flamethrower => "F",
        BuildingType::AntiArmor => "A",
        BuildingType::Mortar => "M",
        BuildingType::Eco => "E",
    }
}

fn shop_text(i: u64, k: BuildingType) -> (s: String)
    requires
        i < 5,
    ensures
        s@ == shop_line(i as int, k),
{
    let st = k.stats();
    let mut s = String::from_str("  [");
    push_decimal(&mut s, i + 1);
    s.append("] ");
    s.append(building_glyph_str(k));
    s.append(" ");
    s.append(st.name);
    let name_len = st.name.unicode_len();
    if name_len < 13 {
        push_spaces(&mut s, 13 - name_len);
    }
    s.append(" ");
    let cost = decimal(st.cost as u64);
    let cost_len = cost.unicode_len();
    if cost_len < 3 {
        push_spaces(&mut s, 3 - cost_len);
    }
    s.append(cost.as_str());
    s.append(" or  ");
    s.append(describe(k));
    proof {
        assert(s@ =~= shop_line(i as int, k));
    }
    s
}

fn damage_line(d: &Vec<(u32, u32)>) -> (s: String)
    ensures
        s@ == "  dégâts "@ + damage_text(d@, d@.len() as int),
{
    let mut s = String::from_str("  dégâts ");
    let ghost start = s@;
    let mut j: usize = 0;
    while j < d.len()
        invariant
            j <= d@.len(),
            start == "  dégâts "@,
            s@ == start + damage_text(d@, j as int),
        decreases d@.len() - j,
    {
        let ghost prev = s@;
        if j > 0 {
            s.append(" ");
        }
        s.append("b");
        push_decimal(&mut s, d[j].0 as u64);
        s.append(":");
        push_decimal(&mut s, d[j].1 as u64);
        proof {
            assert(s@ =~= start + damage_text(d@, j as int + 1));
        }
        j += 1;
    }
    s
}

/// The shop lines, each with whether `gold` buys it.
fn shop_rows(gold: u32) -> (v: Vec<(String, bool)>)
    ensures
        shows_lines(v@, shop_lines(gold, 5)),
{
    let kinds = building_types();
    let mut v: Vec<(String, bool)> = Vec::new();
    let mut k: usize = 0;
    while k < 5
        invariant
            k <= 5,
            kinds@ == spec_building_types(),
            v@.len() == k,
            shows_lines(v@, shop_lines(gold, k as int)),
        decreases 5 - k,
    {
        let kind = kinds[k];
        let affordable = kind.stats().cost <= gold;
        let ghost before = v@;
        v.push((shop_text(k as u64, kind), affordable));
        proof {
            let t = shop_lines(gold, k as int + 1);
            assert(t == shop_lines(gold, k as int).push((shop_line(k as int, kind), spec_cost(kind) <= gold)));
            assert forall|i: int| 0 <= i < v@.len() implies (#[trigger] v@[i]).0@ == t[i].0 && v@[i].1 == t[i].1 by {
                if i < k {
                    assert(v@[i] == before[i]);
                }
            }
        }
        k += 1;
    }
    v
}

/// The lines of a wave report.
fn report_rows(r: &WaveReport) -> (v: Vec<(String, bool)>)
    ensures
        shows_lines(v@, report_block(r@)),
{
    let mut v: Vec<(String, bool)> = Vec::new();
    v.push((String::new(), true));
    let mut title = String::from_str("RAPPORT VAGUE ");
    push_decimal(&mut title, r.wave as u64);
    v.push((title, true));
    let mut counts = String::from_str("  tués ");
    counts.append(composition_line(r.kills).as_str());
    counts.append(" · fuites ");
    counts.append(composition_line(r.leaked).as_str());
    counts.append(" · -");
    push_decimal(&mut counts, r.lives_lost as u64);
    counts.append(" vies");
    v.push((counts, true));
    if r.damage_by_building.len() > 0 {
        v.push((damage_line(&r.damage_by_building), true));
    }
    proof {
        let t = report_block(r@);
        assert forall|i: int| 0 <= i < v@.len() implies (#[trigger] v@[i]).0@ == t[i].0 && v@[i].1 == t[i].1 by {
            reveal_strlit("");
        }
    }
    v
}

/// The side panel of the terminal client, line by line: the flag of a shop
/// line says whether the gold buys it; other lines carry `true`.
pub fn panel_lines(g: &Game) -> (r: Vec<(String, bool)>)
    requires
        board_wf(g@),
        g.wave < u32::MAX,
    ensures
        r@.len() == spec_panel(g@).len(),
        forall|i: int| 0 <= i < r@.len() ==> r@[i].0@ == spec_panel(g@)[i].0 && r@[i].1 == spec_panel(g@)[i].1,
{
    proof {
        crate::game::lemma_income_fits(g@);
    }
    let mut status = String::from_str("vague ");
    push_decimal(&mut status, g.wave as u64);
    status.append("   ♥ ");
    push_decimal(&mut status, g.lives as u64);
    status.append("   ⛁ ");
    push_decimal(&mut status, g.gold as u64);
    let mut economy = String::from_str("revenu ");
    push_decimal(&mut economy, g.income() as u64);
    economy.append("/vague   déplacements ");
    push_decimal(&mut economy, g.moves_remaining as u64);
    economy.append("   actions ");
    push_decimal(&mut economy, g.actions_used as u64);
    economy.append("/");
    push_decimal(&mut economy, ACTION_LIMIT as u64);
    let composition = composition_line(g.composition(g.wave));
    let announcement = intel(g.seed, g.wave + 1);
    let ghost head: Seq<(Seq<char>, bool)> = seq![
        (status_line(g@), true),
        (economy_line(g@), true),
        (Seq::<char>::empty(), true),
        ("VAGUE ENTRANTE"@, true),
        (comp_line(spec_wave_composition(g.seed, g.wave), 3), true),
        (panel_intel(g.seed, g.wave + 1), true),
        (Seq::<char>::empty(), true),
        ("BÂTIMENTS"@, true),
    ];
    let mut lines: Vec<(String, bool)> = Vec::new();
    lines.push((status, true));
    lines.push((economy, true));
    lines.push((String::new(), true));
    lines.push((String::from_str("VAGUE ENTRANTE"), true));
    lines.push((composition, true));
    lines.push((announcement, true));
    lines.push((String::new(), true));
    lines.push((String::from_str("BÂTIMENTS"), true));
    proof {
        assert forall|i: int| 0 <= i < lines@.len() implies (#[trigger] lines@[i]).0@ == head[i].0 && lines@[i].1
            == head[i].1 by {
            reveal_strlit("");
        }
        assert(shows_lines(lines@, head));
    }
    append_lines(&mut lines, shop_rows(g.gold), Ghost(head), Ghost(shop_lines(g.gold, 5)));
    let ghost body = head + shop_lines(g.gold, 5);
    match &g.last_report {
        Some(r) => {
            append_lines(&mut lines, report_rows(r), Ghost(body), Ghost(report_block(r@)));
            proof {
                assert(body + report_block(r@) =~= spec_panel(g@));
            }
        },
        None => {
            proof {
                assert(body =~= spec_panel(g@));
            }
        },
    }
    lines
}


/// The cursor keys: `h` and Left step the cursor one cell left, `l` and Right
/// one cell right, `k` and Up one cell up, `j` and Down one cell down, never
/// leaving the board, and change nothing else of the client.
pub proof fn lemma_cursor_keys(a: AppView)
    requires
        app_wf(a),
    ensures
        ({
            let (x, y) = (a.cursor.x as int, a.cursor.y as int);
            let left = Pos { x: if x > 0 { (x - 1) as i32 } else { 0 }, y: y as i32 };
            let right = Pos { x: if x < BOARD_W - 1 { (x + 1) as i32 } else { (BOARD_W - 1) as i32 }, y: y as i32 };
            let up = Pos { x: x as i32, y: if y > 0 { (y - 1) as i32 } else { 0 } };
            let down = Pos { x: x as i32, y: if y < BOARD_H - 1 { (y + 1) as i32 } else { (BOARD_H - 1) as i32 } };
            &&& spec_key(a, Key::Left) == (AppView { cursor: left, ..a }, true)
            &&& spec_key(a, Key::Char('h')) == (AppView { cursor: left, ..a }, true)
            &&& spec_key(a, Key::Right) == (AppView { cursor: right, ..a }, true)
            &&& spec_key(a, Key::Char('l')) == (AppView { cursor: right, ..a }, true)
            &&& spec_key(a, Key::Up) == (AppView { cursor: up, ..a }, true)
            &&& spec_key(a, Key::Char('k')) == (AppView { cursor: up, ..a }, true)
            &&& spec_key(a, Key::Down) == (AppView { cursor: down, ..a }, true)
            &&& spec_key(a, Key::Char('j')) == (AppView { cursor: down, ..a }, true)
        }),
{
}

} // verus!
