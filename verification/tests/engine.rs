use gamebenchy::game::Game;
use gamebenchy::types::{Action, BuildingType, ErrorCode, Phase, Pos, ACTION_LIMIT, BOARD_H};
use gamebenchy::waves::wave_composition;

#[test]
fn path_is_deterministic_and_tie_broken() {
    let g = Game::new(1);
    let p1 = g.current_path().unwrap();
    let p2 = g.current_path().unwrap();
    assert_eq!(p1, p2);
    // Empty board: the search goes right before going down.
    assert_eq!(p1[1], Pos::new(1, g.entry.y));
    assert_eq!(*p1.last().unwrap(), g.exit);
    // Length = Manhattan distance + the starting cell.
    let d = (g.exit.x - g.entry.x).abs() + (g.exit.y - g.entry.y).abs();
    assert_eq!(p1.len() as i32, d + 1);
}

#[test]
fn blocking_the_exit_is_rejected_and_counted() {
    let mut g = Game::new(1);
    g.gold = 10_000;
    // A full wall on x=5, but for the last cell.
    for y in 0..BOARD_H - 1 {
        g.apply(Action::Build {
            kind: BuildingType::Eco,
            pos: Pos::new(5, y),
        })
        .unwrap();
    }
    let err = g.apply(Action::Build {
        kind: BuildingType::Eco,
        pos: Pos::new(5, BOARD_H - 1),
    });
    assert_eq!(err, Err(ErrorCode::PathBlocked));
    assert_eq!(g.metrics.get(ErrorCode::PathBlocked), 1);
    assert!(g.current_path().is_some());
    // The wall does lengthen the path (the maze is the defence).
    assert!(g.current_path().unwrap().len() > 10);
}

#[test]
fn placement_rules() {
    let mut g = Game::new(1);
    let entry = g.entry;
    assert_eq!(
        g.apply(Action::Build {
            kind: BuildingType::Sniper,
            pos: entry
        }),
        Err(ErrorCode::InvalidCell)
    );
    assert_eq!(
        g.apply(Action::Build {
            kind: BuildingType::Sniper,
            pos: Pos::new(99, 0)
        }),
        Err(ErrorCode::InvalidCell)
    );
    g.apply(Action::Build {
        kind: BuildingType::Sniper,
        pos: Pos::new(3, 3),
    })
    .unwrap();
    assert_eq!(
        g.apply(Action::Build {
            kind: BuildingType::Mortar,
            pos: Pos::new(3, 3)
        }),
        Err(ErrorCode::CellOccupied)
    );
    g.gold = 0;
    assert_eq!(
        g.apply(Action::Build {
            kind: BuildingType::Mortar,
            pos: Pos::new(4, 4)
        }),
        Err(ErrorCode::InsufficientGold)
    );
}

#[test]
fn move_is_rationed_and_sell_refunds_half() {
    let mut g = Game::new(1);
    g.apply(Action::Build {
        kind: BuildingType::Sniper,
        pos: Pos::new(3, 3),
    })
    .unwrap();
    g.apply(Action::Move {
        id: 1,
        pos: Pos::new(4, 3),
    })
    .unwrap();
    assert_eq!(g.buildings[0].pos, Pos::new(4, 3));
    assert_eq!(
        g.apply(Action::Move {
            id: 1,
            pos: Pos::new(5, 3)
        }),
        Err(ErrorCode::NoMovesLeft)
    );
    let gold = g.gold;
    g.apply(Action::Sell { id: 1 }).unwrap();
    assert_eq!(g.gold, gold + BuildingType::Sniper.stats().cost / 2);
    assert_eq!(
        g.apply(Action::Sell { id: 42 }),
        Err(ErrorCode::UnknownBuilding)
    );
}

#[test]
fn action_limit_forces_end_turn() {
    let mut g = Game::new(1);
    for _ in 0..ACTION_LIMIT {
        let _ = g.apply(Action::Sell { id: 999 }); // errors count too
    }
    assert_eq!(g.wave, 2);
    assert_eq!(g.metrics.forced_end_turns, 1);
}

#[test]
fn same_seed_same_game() {
    let play = |seed| {
        let mut g = Game::new(seed);
        let mut log = String::new();
        while g.phase == Phase::Preparation && g.wave < 25 {
            let p = g.current_path().unwrap();
            let cell = p[p.len() / 2];
            let _ = g.apply(Action::Build {
                kind: BuildingType::Sniper,
                pos: Pos::new(cell.x, (cell.y + 1) % BOARD_H),
            });
            g.apply(Action::EndTurn).unwrap();
            let r = g.last_report.clone().unwrap();
            log += &format!("{}:{:?}/{:?}/{} ", r.wave, r.kills, r.leaked, g.gold);
        }
        log
    };
    assert_eq!(play(7), play(7));
    assert_ne!(play(7), play(8));
}

#[test]
fn doing_nothing_loses_the_game() {
    let mut g = Game::new(3);
    while g.phase == Phase::Preparation && g.wave < 100 {
        g.apply(Action::EndTurn).unwrap();
    }
    assert_eq!(g.phase, Phase::GameOver);
    assert!(
        g.score() < 6,
        "sans défense on doit mourir vite (vague {})",
        g.score()
    );
}

#[test]
fn wave_composition_grows_and_introduces_types() {
    let c1 = wave_composition(1, 1);
    assert_eq!((c1[1], c1[2]), (0, 0), "vague 1 : infanterie seulement");
    assert_eq!(
        wave_composition(1, 4)[2],
        0,
        "pas de volants avant la vague 8"
    );
    assert!(wave_composition(1, 5)[1] > 0, "blindés dès la vague 5");
    assert!(wave_composition(1, 9)[2] > 0, "volants dès la vague 8");
    assert!(wave_composition(1, 20)[0] > wave_composition(1, 2)[0]);
}
