use gamebenchy::flight::straight_line;
use gamebenchy::game::Game;
use gamebenchy::rng::Rng;
use gamebenchy::sim::spawn_order;
use gamebenchy::types::{Action, BuildingType, EnemyKind, ErrorCode, Pos};
use gamebenchy::waves::{effective_damage, incoming_intel, wave_composition};

#[test]
fn the_generator_is_xorshift_star() {
    let mut r = Rng::new(0);
    assert_eq!(r.next_u64(), 973819730272012410);
    assert_eq!(r.next_u64(), 6108091081255984487);
    assert_eq!(Rng::new(42).below(10), 4);
    let mut z = Rng::new(5);
    assert_eq!(z.below(0), 0);
}

#[test]
fn damage_rule() {
    assert_eq!(effective_damage(BuildingType::Sniper, EnemyKind::Infantry), 7);
    assert_eq!(effective_damage(BuildingType::Sniper, EnemyKind::Armor), 1);
    assert_eq!(effective_damage(BuildingType::Flamethrower, EnemyKind::Armor), 1);
    assert_eq!(effective_damage(BuildingType::Mortar, EnemyKind::Armor), 7);
    assert_eq!(effective_damage(BuildingType::AntiArmor, EnemyKind::Armor), 45);
    assert_eq!(effective_damage(BuildingType::AntiArmor, EnemyKind::Flyer), 5);
    assert_eq!(effective_damage(BuildingType::Eco, EnemyKind::Armor), 1);
}

#[test]
fn hit_points_grow_eight_percent_a_wave() {
    assert_eq!(EnemyKind::Infantry.hp_at(1), 14);
    assert_eq!(EnemyKind::Infantry.hp_at(0), 14);
    assert_eq!(EnemyKind::Armor.hp_at(2), 86);
    assert_eq!(EnemyKind::Armor.hp_at(5), 106);
    assert!(EnemyKind::Flyer.hp_fits(100));
    assert!(!EnemyKind::Infantry.hp_fits(2000));
}

#[test]
fn distances_and_lines() {
    assert_eq!(Pos::new(1, 2).dist_sq(Pos::new(4, 6)), 25);
    let l = straight_line(Pos::new(0, 4), Pos::new(9, 5));
    assert_eq!(l.len(), 11);
    assert_eq!(l[0], Pos::new(0, 4));
    assert_eq!(*l.last().unwrap(), Pos::new(9, 5));
    for w in l.windows(2) {
        assert_eq!((w[1].x - w[0].x).abs() + (w[1].y - w[0].y).abs(), 1);
    }
}

#[test]
fn the_spawn_order_shuffles_the_composition() {
    let c = wave_composition(3, 12);
    let order = spawn_order(3, 12, c);
    let count = |k: EnemyKind| order.iter().filter(|e| **e == k).count() as u32;
    assert_eq!(count(EnemyKind::Infantry), c[0]);
    assert_eq!(count(EnemyKind::Armor), c[1]);
    assert_eq!(count(EnemyKind::Flyer), c[2]);
    assert_eq!(order, spawn_order(3, 12, c));
}

#[test]
fn intel_announces_what_comes() {
    assert_eq!(incoming_intel(1, 1), "N+2 : des colonnes d'infanterie se rassemblent.");
    let c = wave_composition(1, 9);
    assert!(c[1] > 0 && c[2] > 0);
    assert_eq!(
        incoming_intel(1, 9),
        "N+2 : des moteurs lourds grondent au loin, le ciel bourdonne."
    );
}

#[test]
fn income_counts_eco_buildings() {
    let mut g = Game::new(1);
    assert_eq!(g.income(), 30);
    g.apply(Action::Build {
        kind: BuildingType::Eco,
        pos: Pos::new(0, 0),
    })
    .unwrap();
    assert_eq!(g.income(), 38);
    assert_eq!(g.gold, 120);
    assert_eq!(BuildingType::from_name("eco"), Some(BuildingType::Eco));
    assert_eq!(BuildingType::from_name("Eco"), None);
    assert_eq!(ErrorCode::PathBlocked.as_str(), "PATH_BLOCKED");
    assert_eq!(g.building_at(Pos::new(0, 0)).map(|b| b.id), Some(1));
    assert!(g.occupied(Pos::new(0, 0)));
    g.apply(Action::EndTurn).unwrap();
    assert_eq!(g.gold, 120 + 38);
    assert_eq!(g.score(), 2);
}
