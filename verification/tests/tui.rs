use gamebenchy::tui::{composition_line, describe, intel, panel_lines, App, Cell, Key};
use gamebenchy::types::BuildingType;
use gamebenchy::waves::incoming_intel;

#[test]
fn keys_play_the_game_and_the_frame_shows_it() {
    let mut app = App::new(1);
    assert!(app.key(Key::Char('1'))); // a sniper under the cursor
    assert_eq!(app.game.buildings.len(), 1);
    assert_eq!(app.game.buildings[0].pos, app.cursor);
    assert!(app.key(Key::Enter)); // launches the wave
    assert_eq!(app.game.wave, 2);
    assert!(app.game.last_report.is_some());
    let screen: String = panel_lines(&app.game).into_iter().map(|(t, _)| t + "\n").collect();
    assert!(screen.contains("vague 2"), "{screen}");
    assert!(screen.contains("RAPPORT VAGUE 1"), "{screen}");
    let path = app.game.current_path().unwrap();
    assert_eq!(app.cell(&path, app.game.entry), Cell::Entry, "entrée absente du plateau");
    assert!(!app.key(Key::Char('q')), "q doit quitter");
}

#[test]
fn the_cursor_stays_on_the_board() {
    let mut app = App::new(1);
    assert_eq!((app.cursor.x, app.cursor.y), (5, 5));
    for _ in 0..20 {
        app.key(Key::Left);
        app.key(Key::Char('k'));
    }
    assert_eq!((app.cursor.x, app.cursor.y), (0, 0));
    for _ in 0..20 {
        app.key(Key::Char('l'));
        app.key(Key::Down);
    }
    assert_eq!((app.cursor.x, app.cursor.y), (9, 9));
}

#[test]
fn refusals_and_moves_are_reported() {
    let mut app = App::new(1);
    app.key(Key::Char('s'));
    assert_eq!(app.message, "Rien à vendre ici.");
    app.key(Key::Char('m'));
    assert_eq!(app.message, "Aucun bâtiment sous le curseur.");
    app.key(Key::Char('4')); // mortar: 90 gold
    app.key(Key::Char('4'));
    assert_eq!(app.message, "CELL_OCCUPIED — Case déjà occupée.");
    app.key(Key::Char('m'));
    assert_eq!(app.moving, Some(1));
    app.key(Key::Right);
    app.key(Key::Enter);
    assert_eq!(app.moving, None);
    assert_eq!(app.game.buildings[0].pos, app.cursor);
    assert_eq!(app.message, "");
    app.key(Key::Char('r'));
    assert!(app.game.buildings.is_empty());
}

#[test]
fn panel_texts() {
    assert_eq!(composition_line([8, 2, 0]), "i8 infantry, a2 armor");
    assert_eq!(composition_line([0, 0, 3]), "v3 flyer");
    assert_eq!(composition_line([0, 0, 0]), "");
    assert_eq!(describe(BuildingType::Eco), "+8 or/vague, ne défend pas");
    assert_eq!(intel(1, 101), "");
    assert_eq!(intel(1, 9), incoming_intel(1, 9));
}

#[test]
fn cells_show_entry_exit_buildings_and_path() {
    let mut app = App::new(1);
    let (entry, exit) = (app.game.entry, app.game.exit);
    assert!(app.key(Key::Char('1')));
    let sniper = app.cursor;
    let path = app.game.current_path().unwrap();
    assert_eq!(app.cell(&path, entry), Cell::Entry);
    assert_eq!(app.cell(&path, exit), Cell::Exit);
    assert_eq!(app.cell(&path, sniper), Cell::Building { glyph: 'S', moving: false });
    let on_path = path[1];
    assert_eq!(app.cell(&path, on_path), Cell::Path);
    assert_eq!(app.cell(&[], on_path), Cell::Empty);
    assert!(app.key(Key::Char('m')));
    assert_eq!(app.cell(&path, sniper), Cell::Building { glyph: 'S', moving: true });
}

#[test]
fn the_panel_shows_the_game_the_shop_and_the_report() {
    let mut app = App::new(1);
    let lines = panel_lines(&app.game);
    assert_eq!(lines.len(), 13);
    assert_eq!(lines[0].0, "vague 1   ♥ 20   ⛁ 180");
    assert_eq!(lines[1].0, "revenu 30/vague   déplacements 1   actions 0/20");
    assert_eq!(lines[3].0, "VAGUE ENTRANTE");
    assert_eq!(lines[7].0, "BÂTIMENTS");
    assert_eq!(lines[8], (format!("  [1] S {:<13} {:>3} or  {}", "sniper", 50, describe(BuildingType::Sniper)), true));
    assert_eq!(lines[11].0, format!("  [4] M {:<13} {:>3} or  {}", "mortar", 90, describe(BuildingType::Mortar)));
    assert!(app.key(Key::Char('1')));
    assert!(app.key(Key::Enter));
    let lines = panel_lines(&app.game);
    assert!(lines.len() >= 16);
    assert_eq!(lines[14].0, "RAPPORT VAGUE 1");
    assert!(lines[15].0.starts_with("  tués i"), "{}", lines[15].0);
    if lines.len() == 17 {
        assert!(lines[16].0.starts_with("  dégâts b1:"), "{}", lines[16].0);
    }
}
