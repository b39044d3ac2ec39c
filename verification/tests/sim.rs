use gamebenchy::game::Game;
use gamebenchy::sim::run_wave;
use gamebenchy::types::{Action, BuildingType, Pos};

#[test]
fn snipers_kill_infantry_and_report_damage() {
    let mut g = Game::new(1);
    g.gold = 10_000;
    // A battery of snipers along the entry corridor.
    for y in [g.entry.y - 1, g.entry.y + 1] {
        for x in 1..5 {
            g.apply(Action::Build {
                kind: BuildingType::Sniper,
                pos: Pos::new(x, y),
            })
            .unwrap();
        }
    }
    let r = run_wave(&g);
    assert!(r.kills[0] > 0);
    assert_eq!(r.leaked, [0, 0, 0]);
    assert!(!r.damage_by_building.is_empty());
}

#[test]
fn flyers_ignore_the_maze_and_only_snipers_touch_them() {
    let mut g = Game::new(1);
    g.gold = 10_000;
    g.wave = 12; // a wave with flyers
    assert!(g.composition(12)[2] > 0);
    // Flamethrowers only: blind to the sky.
    for x in 1..9 {
        let _ = g.apply(Action::Build {
            kind: BuildingType::Flamethrower,
            pos: Pos::new(x, g.entry.y + 2),
        });
    }
    let r = run_wave(&g);
    assert_eq!(r.kills[2], 0, "les lance-flammes ne visent pas le ciel");
    assert_eq!(r.leaked[2], g.composition(12)[2]);
}

#[test]
fn anti_armor_beats_armor_faster_than_sniper() {
    let kills = |kind| {
        let mut g = Game::new(4);
        g.wave = 8;
        g.gold = 10_000;
        for x in 2..6 {
            g.apply(Action::Build {
                kind,
                pos: Pos::new(x, g.entry.y + 1),
            })
            .unwrap();
        }
        run_wave(&g).kills[1]
    };
    assert!(kills(BuildingType::AntiArmor) > kills(BuildingType::Sniper));
}

#[test]
fn simulation_is_reproducible() {
    let mut g = Game::new(99);
    g.gold = 10_000;
    g.wave = 7;
    g.apply(Action::Build {
        kind: BuildingType::Mortar,
        pos: Pos::new(4, 2),
    })
    .unwrap();
    let a = run_wave(&g);
    let b = run_wave(&g);
    assert_eq!(a.kills, b.kills);
    assert_eq!(a.leaked, b.leaked);
    assert_eq!(a.ticks, b.ticks);
    assert_eq!(a.damage_by_building, b.damage_by_building);
}

#[test]
fn every_enemy_of_each_kind_is_killed_or_leaked() {
    let mut g = Game::new(5);
    g.gold = 10_000;
    for (x, y) in [(2, 3), (4, 5), (6, 3)] {
        g.apply(Action::Build { kind: BuildingType::Sniper, pos: Pos::new(x, y) }).unwrap();
    }
    g.wave = 9;
    let r = run_wave(&g);
    let c = g.composition(9);
    for k in 0..3 {
        assert_eq!(r.kills[k] + r.leaked[k], c[k], "kind {k}");
    }
}
