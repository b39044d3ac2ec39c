use gamebenchy::game::{replay, replay_log, Game};
use gamebenchy::protocol::{building_label, observe, parse_game_id, parse_id, ActionDto, Mode};
use gamebenchy::text::{decimal, parse_i64, parse_unsigned};
use gamebenchy::types::{Action, BuildingType, ErrorCode, Pos, ACTION_LIMIT};
use gamebenchy::waves::{detailed_intel, incoming_intel};

#[test]
fn building_ids_are_written_and_read_back() {
    assert_eq!(building_label(12), "b12");
    assert_eq!(building_label(0), "b0");
    assert_eq!(parse_id("b12"), Ok(12));
    assert_eq!(parse_id("b+7"), Ok(7));
    assert_eq!(parse_id("b4294967295"), Ok(u32::MAX));
    assert_eq!(parse_id("b4294967296"), Err(ErrorCode::UnknownBuilding));
    assert_eq!(parse_id("12"), Err(ErrorCode::UnknownBuilding));
    assert_eq!(parse_id("b"), Err(ErrorCode::UnknownBuilding));
    assert_eq!(parse_id("b1x"), Err(ErrorCode::UnknownBuilding));
    assert_eq!(parse_id("b-1"), Err(ErrorCode::UnknownBuilding));
}

#[test]
fn game_ids_are_read() {
    assert_eq!(parse_game_id("g12"), Some(12));
    assert_eq!(parse_game_id("g-3"), Some(-3));
    assert_eq!(parse_game_id("g-9223372036854775808"), Some(i64::MIN));
    assert_eq!(parse_game_id("g9223372036854775808"), None);
    assert_eq!(parse_game_id("12"), None);
    assert_eq!(parse_game_id("g"), None);
    assert_eq!(parse_game_id("g-"), None);
}

#[test]
fn numbers_are_written_and_parsed_like_rust_does() {
    assert_eq!(decimal(0), "0");
    assert_eq!(decimal(1337), "1337");
    assert_eq!(decimal(u64::MAX), u64::MAX.to_string());
    assert_eq!(parse_unsigned("+42", 100), Some(42));
    assert_eq!(parse_unsigned("101", 100), None);
    assert_eq!(parse_unsigned("", 100), None);
    assert_eq!(parse_unsigned("+", 100), None);
    assert_eq!(parse_i64("-0"), Some(0));
    assert_eq!(parse_i64("+5"), Some(5));
}

#[test]
fn requests_become_actions() {
    let build = ActionDto::Build {
        building_type: "anti_armor".to_string(),
        x: 3,
        y: 5,
    };
    assert!(matches!(
        build.to_action(),
        Ok(Action::Build {
            kind: BuildingType::AntiArmor,
            pos: Pos { x: 3, y: 5 }
        })
    ));
    let railgun = ActionDto::Build {
        building_type: "railgun".to_string(),
        x: 3,
        y: 5,
    };
    assert!(matches!(railgun.to_action(), Err(ErrorCode::UnknownBuilding)));
    let sell = ActionDto::Sell {
        building_id: "b2".to_string(),
    };
    assert!(matches!(sell.to_action(), Ok(Action::Sell { id: 2 })));
    let mv = ActionDto::Move {
        building_id: "x1".to_string(),
        x: 4,
        y: 6,
    };
    assert!(matches!(mv.to_action(), Err(ErrorCode::UnknownBuilding)));
    assert!(matches!(ActionDto::EndTurn.to_action(), Ok(Action::EndTurn)));
}

#[test]
fn the_observation_shows_the_game() {
    let mut g = Game::new(42);
    g.apply(Action::Build {
        kind: BuildingType::Sniper,
        pos: Pos::new(3, 2),
    })
    .unwrap();
    let o = observe("g1", &g, Mode::Detailed);
    assert_eq!(o.game_id, "g1");
    assert_eq!(o.mode, "detailed");
    assert_eq!(o.phase, "preparation");
    assert_eq!(o.wave, 1);
    assert_eq!(o.lives, 20);
    assert_eq!(o.gold, 130);
    assert_eq!(o.income_per_wave, 30);
    assert_eq!((o.width, o.height), (10, 10));
    assert_eq!(o.buildings.len(), 1);
    assert_eq!(o.buildings[0].id, "b1");
    assert_eq!(o.buildings[0].kind, "sniper");
    assert_eq!((o.buildings[0].x, o.buildings[0].y), (3, 2));
    assert_eq!(o.current_path, g.current_path().unwrap());
    assert_eq!(o.next_wave, g.composition(1));
    assert_ne!(o.incoming_intel, incoming_intel(42, 2));
    assert!(o.incoming_intel.contains(&incoming_intel(42, 2)));
    assert_eq!(o.incoming_intel, detailed_intel(42, 2));
    assert_eq!(o.actions_remaining, ACTION_LIMIT - 1);
    assert_eq!(o.shop.len(), 5);
    assert_eq!((o.shop[4].kind, o.shop[4].cost), ("eco", 60));
    assert!(o.last_wave_report.is_none());

    g.apply(Action::EndTurn).unwrap();
    let o = observe("g1", &g, Mode::Minimal);
    let r = o.last_wave_report.unwrap();
    assert_eq!(r.wave, 1);
    assert_eq!(o.mode, "minimal");
    assert_eq!(o.actions_remaining, ACTION_LIMIT);
    for (label, _) in &r.damage_by_building {
        assert_eq!(label, "b1");
    }
}

#[test]
fn a_log_replays_to_the_same_game() {
    let log = vec![
        Action::Build {
            kind: BuildingType::Sniper,
            pos: Pos::new(3, 3),
        },
        Action::Build {
            kind: BuildingType::Sniper,
            pos: Pos::new(3, 3),
        },
        Action::Move {
            id: 1,
            pos: Pos::new(4, 3),
        },
        Action::EndTurn,
        Action::Sell { id: 1 },
    ];
    let a = replay(7, &log);
    let mut b = Game::new(7);
    for act in &log {
        let _ = b.apply(*act);
    }
    assert_eq!(a.gold, b.gold);
    assert_eq!(a.wave, 2);
    assert_eq!(a.metrics.get(ErrorCode::CellOccupied), 1);
    assert_eq!(a.buildings.len(), 0);
    assert_eq!(a.metrics.gold_refunded, 25);
    assert_eq!(a.metrics.moves_used, 1);
}

#[test]
fn the_detailed_mode_buries_the_announcement_and_changes_nothing_else() {
    let mut g = Game::new(7);
    g.apply(Action::Build { kind: BuildingType::Sniper, pos: Pos::new(3, 2) }).unwrap();
    g.apply(Action::EndTurn).unwrap();
    let a = observe("g1", &g, Mode::Minimal);
    let b = observe("g1", &g, Mode::Detailed);
    assert_eq!((a.mode, b.mode), ("minimal", "detailed"));
    assert_eq!(a.incoming_intel, incoming_intel(7, 3));
    assert!(b.incoming_intel.contains(&a.incoming_intel));
    assert!(b.incoming_intel.len() > a.incoming_intel.len());
    // Seven filler sentences and the announcement.
    assert_eq!(b.incoming_intel.matches(". ").count() + 1, 8, "{}", b.incoming_intel);
    assert_eq!(b.incoming_intel, observe("g1", &g, Mode::Detailed).incoming_intel);
    assert_eq!((a.seed, a.wave, a.lives, a.gold), (b.seed, b.wave, b.lives, b.gold));
    assert_eq!(a.current_path, b.current_path);
    assert_eq!(a.next_wave, b.next_wave);
    assert_eq!(a.buildings.len(), b.buildings.len());
    assert_eq!(a.buildings[0].id, b.buildings[0].id);
    assert_eq!(a.last_wave_report.unwrap().kills, b.last_wave_report.unwrap().kills);
}

#[test]
fn a_checked_replay_gives_the_same_game() {
    let log = vec![
        Action::Build { kind: BuildingType::Sniper, pos: Pos::new(2, 3) },
        Action::Sell { id: 9 },
        Action::EndTurn,
    ];
    let a = replay(5, &log);
    let b = replay_log(5, &log).unwrap();
    assert_eq!((a.wave, a.gold, a.lives, a.buildings.len()), (b.wave, b.gold, b.lives, b.buildings.len()));
    assert_eq!(b.metrics.get(ErrorCode::UnknownBuilding), 1);
}
