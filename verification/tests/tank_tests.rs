use tank_matchmaker::data::tomato;
use tank_matchmaker::tank::{tier_display, TankClass, TankRegistry};

fn registry() -> TankRegistry {
    let mut registry = TankRegistry::new();
    registry.register("T-34", 5, TankClass::Medium, 3);
    registry.register("Empty", 6, TankClass::Heavy, 0);
    registry.register("IS-7", 10, TankClass::Heavy, 2);
    registry.register("EBR 105", 10, TankClass::Light, 5);
    registry
}

#[test]
fn registry_starts_empty() {
    let registry = TankRegistry::new();
    assert_eq!(registry.len(), 0);
    assert_eq!(registry.battles(), 0);
}

#[test]
fn register_adds_tank_and_battles() {
    let registry = registry();
    assert_eq!(registry.len(), 4);
    assert_eq!(registry.battles(), 10);
}

#[test]
fn weighted_pick_lays_tanks_end_to_end() {
    let registry = registry();
    let names: Vec<&str> = (0..10).map(|x| registry.pick_weighted(x).name()).collect();
    assert_eq!(
        names,
        vec!["T-34", "T-34", "T-34", "IS-7", "IS-7", "EBR 105", "EBR 105", "EBR 105", "EBR 105", "EBR 105"]
    );
}

#[test]
fn weighted_pick_counts_match_battles() {
    // Each tank is picked by as many values as it has battles.
    let registry = registry();
    let mut t34 = 0;
    let mut is7 = 0;
    let mut ebr = 0;
    for x in 0..registry.battles() {
        match registry.pick_weighted(x).name() {
            "T-34" => t34 += 1,
            "IS-7" => is7 += 1,
            "EBR 105" => ebr += 1,
            other => panic!("unexpected pick {other}"),
        }
    }
    assert_eq!((t34, is7, ebr), (3, 2, 5));
}

#[test]
fn picked_tank_keeps_its_registration() {
    let registry = registry();
    let tank = registry.pick_weighted(3);
    assert_eq!(tank.name(), "IS-7");
    assert_eq!(tank.tier(), 10);
    assert_eq!(tank.class(), TankClass::Heavy);
}

#[test]
fn pick_random_never_picks_a_tank_without_battles() {
    let registry = registry();
    for _ in 0..500 {
        let tank = registry.pick_random();
        assert_ne!(tank.name(), "Empty");
    }
}

#[test]
fn pick_many_random_gives_the_count_asked() {
    let registry = registry();
    let picked = registry.pick_many_random(50);
    assert_eq!(picked.len(), 50);
    assert!(picked.iter().all(|tank| tank.name() != "Empty"));
}

#[test]
fn single_tank_is_always_picked() {
    let mut registry = TankRegistry::new();
    registry.register("Lonely", 3, TankClass::Clicker, 7);
    for _ in 0..20 {
        assert_eq!(registry.pick_random().name(), "Lonely");
    }
}

#[test]
fn class_rank_follows_declaration_order() {
    assert_eq!(TankClass::Heavy.rank(), 0);
    assert_eq!(TankClass::Medium.rank(), 1);
    assert_eq!(TankClass::Destroyer.rank(), 2);
    assert_eq!(TankClass::Light.rank(), 3);
    assert_eq!(TankClass::Clicker.rank(), 4);
}

#[test]
fn tier_display_gives_roman_numerals() {
    let shown: Vec<&str> = (0..=11).map(tier_display).collect();
    assert_eq!(shown, vec!["?", "I", "II", "III", "IV", "V", "VI", "VII", "VIII", "IX", "X", "?"]);
}

#[test]
fn format_classes_map_to_registry_classes() {
    assert_eq!(tomato::TankClass::Light.to_tank_class(), TankClass::Light);
    assert_eq!(tomato::TankClass::Medium.to_tank_class(), TankClass::Medium);
    assert_eq!(tomato::TankClass::Heavy.to_tank_class(), TankClass::Heavy);
    assert_eq!(tomato::TankClass::Destroyer.to_tank_class(), TankClass::Destroyer);
    assert_eq!(tomato::TankClass::Clicker.to_tank_class(), TankClass::Clicker);
}

#[test]
fn pick_random_reaches_every_played_tank() {
    let mut registry = TankRegistry::new();
    registry.register("First", 4, TankClass::Light, 1);
    registry.register("Second", 4, TankClass::Light, 1);
    let mut seen_first = false;
    let mut seen_second = false;
    for _ in 0..400 {
        match registry.pick_random().name() {
            "First" => seen_first = true,
            _ => seen_second = true,
        }
    }
    assert!(seen_first && seen_second);
}

#[test]
fn pick_many_random_of_nothing_needs_no_battles() {
    let registry = TankRegistry::new();
    assert!(registry.pick_many_random(0).is_empty());
}

#[test]
fn draw_range_covers_every_battle() {
    let mut registry = TankRegistry::new();
    registry.register("A", 1, TankClass::Heavy, 2);
    registry.register("B", 1, TankClass::Light, 3);
    assert_eq!(registry.draw_range(), (0, 4));
}

#[test]
fn registrations_count_tanks_and_sum_battles() {
    let mut registry = TankRegistry::new();
    for (i, battles) in [1u32, 2, 3, 4].iter().enumerate() {
        registry.register(&format!("Tank {i}"), 5, TankClass::Medium, *battles);
    }
    assert_eq!(registry.len(), 4);
    assert_eq!(registry.battles(), 10);
}
