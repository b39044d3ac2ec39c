use gamebenchy::agents::{best_build, Agent, Greedy, Random};
use gamebenchy::game::Game;
use gamebenchy::protocol::{observe, Mode};
use gamebenchy::sim::run_wave;
use gamebenchy::types::{Action, BuildingType, EnemyKind, ErrorCode, Phase, Pos, ACTION_LIMIT};
use gamebenchy::waves::wave_composition;

#[test]
fn a_refusal_spends_a_credit_and_is_counted_only() {
    let mut g = Game::new(5);
    let gold = g.gold;
    let r = g.apply(Action::Build {
        kind: BuildingType::Sniper,
        pos: Pos::new(-1, 3),
    });
    assert_eq!(r, Err(ErrorCode::InvalidCell));
    assert_eq!(g.actions_used, 1);
    assert_eq!(g.metrics.get(ErrorCode::InvalidCell), 1);
    assert_eq!(g.metrics.get(ErrorCode::PathBlocked), 0);
    assert_eq!(g.gold, gold);
    assert!(g.buildings.is_empty());
    assert_eq!(g.wave, 1);
}

#[test]
fn a_finished_game_refuses_everything() {
    let mut g = Game::new(3);
    while g.phase == Phase::Preparation {
        g.apply(Action::EndTurn).unwrap();
    }
    assert_eq!(g.lives, 0);
    let wave = g.wave;
    assert_eq!(g.apply(Action::EndTurn), Err(ErrorCode::WrongPhase));
    assert_eq!(
        g.apply(Action::Build {
            kind: BuildingType::Eco,
            pos: Pos::new(2, 2)
        }),
        Err(ErrorCode::WrongPhase)
    );
    assert_eq!(g.metrics.get(ErrorCode::WrongPhase), 2);
    assert_eq!(g.wave, wave);
}

#[test]
fn lives_only_go_down_and_zero_ends_the_game() {
    let mut g = Game::new(11);
    let mut lives = g.lives;
    while g.phase == Phase::Preparation {
        g.apply(Action::EndTurn).unwrap();
        assert!(g.lives <= lives);
        assert_eq!(g.phase == Phase::GameOver, g.lives == 0);
        lives = g.lives;
    }
}

#[test]
fn every_enemy_is_killed_or_leaks_and_leaks_cost_lives() {
    let mut g = Game::new(2);
    g.gold = 10_000;
    g.wave = 10;
    for x in 1..8 {
        g.apply(Action::Build {
            kind: BuildingType::Sniper,
            pos: Pos::new(x, g.entry.y - 1),
        })
        .unwrap();
    }
    let r = run_wave(&g);
    let c = wave_composition(2, 10);
    let total: u32 = c.iter().sum();
    assert!(r.ticks < 5000);
    assert_eq!(r.kills.iter().sum::<u32>() + r.leaked.iter().sum::<u32>(), total);
    assert_eq!(r.lives_lost, r.leaked[0] + 3 * r.leaked[1] + r.leaked[2]);
}

#[test]
fn every_round_ends_within_the_action_limit() {
    let mut g = Game::new(8);
    let mut n = 0;
    while g.wave == 1 {
        let _ = g.apply(Action::Move {
            id: 7,
            pos: Pos::new(1, 1),
        });
        n += 1;
    }
    assert_eq!(n, ACTION_LIMIT);
    assert_eq!(g.actions_used, 0);
    assert_eq!(g.metrics.get(ErrorCode::UnknownBuilding), ACTION_LIMIT);
}

#[test]
fn sold_buildings_are_gone_and_refunded() {
    let mut g = Game::new(1);
    g.apply(Action::Build {
        kind: BuildingType::Mortar,
        pos: Pos::new(6, 7),
    })
    .unwrap();
    let gold = g.gold;
    g.apply(Action::Sell { id: 1 }).unwrap();
    assert_eq!(g.gold, gold + 45);
    assert!(g.building_at(Pos::new(6, 7)).is_none());
    assert_eq!(g.apply(Action::Sell { id: 1 }), Err(ErrorCode::UnknownBuilding));
}

#[test]
fn applying_is_checked_beforehand() {
    let mut g = Game::new(1);
    let build = Action::Build {
        kind: BuildingType::Sniper,
        pos: Pos::new(2, 2),
    };
    assert!(g.can_apply(build));
    assert!(g.can_apply(Action::EndTurn));
    g.next_id = u32::MAX;
    assert!(!g.can_apply(build));
    assert!(g.can_apply(Action::Build {
        kind: BuildingType::Sniper,
        pos: g.entry
    }));
    g.wave = 600;
    assert!(!EnemyKind::Armor.hp_fits(600));
    assert!(!g.can_apply(Action::EndTurn));
}

#[test]
fn the_random_agent_is_reproducible() {
    let g = Game::new(1);
    let o = observe("g0", &g, Mode::Minimal);
    let mut a = Random::new(9);
    let mut b = Random::new(9);
    for _ in 0..50 {
        let x = format!("{:?}", a.act(&g, &o, None));
        let y = format!("{:?}", b.act(&g, &o, None));
        assert_eq!(x, y);
    }
}

#[test]
fn the_greedy_agent_invests_then_defends() {
    let mut g = Game::new(1);
    let mut agent = Greedy::new(None);
    assert!(agent.ready(&g));
    let o = observe("g0", &g, Mode::Minimal);
    let first = agent.act(&g, &o, None);
    assert!(matches!(
        first,
        Action::Build {
            kind: BuildingType::Eco,
            pos: Pos { x: 0, y: 0 }
        }
    ));
    g.apply(first).unwrap();
    let o = observe("g0", &g, Mode::Minimal);
    let second = agent.act(&g, &o, None);
    let path = g.current_path().unwrap();
    match best_build(&g, &path, None) {
        Some((kind, pos)) => assert!(matches!(second, Action::Build { kind: k, pos: p } if k == kind && p == pos)),
        None => assert!(matches!(second, Action::EndTurn)),
    }
    // After a refusal the plan is stale: the round is closed.
    assert!(matches!(
        agent.act(&g, &o, Some(ErrorCode::CellOccupied)),
        Action::EndTurn
    ));
}

#[test]
fn each_wave_adds_eight_percent_of_hit_points() {
    for k in [EnemyKind::Infantry, EnemyKind::Armor, EnemyKind::Flyer] {
        assert_eq!(k.hp_at(0), k.hp());
        assert_eq!(k.hp_at(1), k.hp());
        for w in 1..199u32 {
            assert_eq!(k.hp_at(w + 1) as u64, k.hp_at(w) as u64 * 108 / 100);
        }
    }
    assert_eq!(EnemyKind::Infantry.hp_at(2), 15);
    assert_eq!(EnemyKind::Armor.hp_at(2), 86);
    assert_eq!(EnemyKind::Armor.hp_at(201), 358336849);
}
