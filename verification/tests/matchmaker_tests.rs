use tank_matchmaker::matchmaker::Matchmaker;
use tank_matchmaker::tank::{TankClass, TankRegistry};

/// A registry of `count` tier 8 heavy tanks, each played once.
fn tier8_heavies(count: usize) -> TankRegistry {
    let mut registry = TankRegistry::new();
    for i in 0..count {
        registry.register(&format!("Heavy {i:02}"), 8, TankClass::Heavy, 1);
    }
    registry
}

#[test]
fn queue_counts_tanks() {
    let registry = tier8_heavies(3);
    let mut matchmaker = Matchmaker::new(10);
    assert_eq!(matchmaker.len(), 0);
    for x in 0..3 {
        matchmaker.queue(registry.pick_weighted(x));
    }
    assert_eq!(matchmaker.len(), 3);
}

#[test]
fn poll_without_enough_tanks_gives_nothing() {
    let registry = tier8_heavies(29);
    let mut matchmaker = Matchmaker::new(10);
    for x in 0..29 {
        matchmaker.queue(registry.pick_weighted(x));
    }
    assert!(matchmaker.poll(2, 15).is_none());
    assert_eq!(matchmaker.len(), 29);
}

#[test]
fn poll_makes_full_sorted_teams() {
    let registry = tier8_heavies(60);
    let mut matchmaker = Matchmaker::new(10);
    for x in 0..60 {
        matchmaker.queue(registry.pick_weighted(x));
    }
    let mut found = None;
    for _ in 0..300 {
        if let Some(m) = matchmaker.poll(2, 15) {
            found = Some(m);
            break;
        }
        // A failed poll leaves the queue as it was.
        assert_eq!(matchmaker.len(), 60);
    }
    let m = found.expect("a match out of sixty tanks of one tier");
    assert_eq!(m.team_size(), 15);
    assert_eq!(m.teams_count(), 2);
    assert_eq!(m.tanks_count(), 30);
    assert_eq!(matchmaker.len(), 30);
    for team in 0..2 {
        let tanks = m.team_tanks(team);
        assert_eq!(tanks.len(), 15);
        assert!(tanks.iter().all(|t| t.team_index() == team));
        assert!(tanks.iter().all(|t| t.tank().tier() == 8));
        // Same tier and class: the tanks come by name.
        for pair in tanks.windows(2) {
            assert!(pair[0].tank().name() <= pair[1].tank().name());
        }
        for index in 0..15 {
            assert_eq!(m.tank(team, index).team_index(), team);
        }
    }
    // The match's wait is the average of its tanks' waits.
    let total: u128 = (0..30).map(|k| m.tank(k / 15, k % 15).wait_duration()).sum();
    assert_eq!(m.wait_duration(), total / 30);
}

#[test]
fn poll_takes_each_tank_once() {
    let registry = tier8_heavies(60);
    let mut matchmaker = Matchmaker::new(10);
    for x in 0..60 {
        matchmaker.queue(registry.pick_weighted(x));
    }
    let m = (0..300).find_map(|_| matchmaker.poll(2, 15)).expect("a match");
    let mut names: Vec<&str> = (0..30).map(|k| m.tank(k / 15, k % 15).tank().name()).collect();
    names.sort();
    names.dedup();
    assert_eq!(names.len(), 30);
}

#[test]
fn tier_ranges_keep_matched_tanks_together() {
    // Tier 5 and tier 9 tanks can never meet: a match holds only one of them.
    let mut registry = TankRegistry::new();
    for i in 0..40 {
        registry.register(&format!("Low {i:02}"), 5, TankClass::Medium, 1);
    }
    for i in 0..40 {
        registry.register(&format!("High {i:02}"), 9, TankClass::Medium, 1);
    }
    let mut matchmaker = Matchmaker::new(10);
    for x in 0..80 {
        matchmaker.queue(registry.pick_weighted(x));
    }
    for _ in 0..300 {
        if let Some(m) = matchmaker.poll(2, 15) {
            let tiers: Vec<u8> = (0..m.tanks_count())
                .map(|k| m.tank(k / m.team_size(), k % m.team_size()).tank().tier())
                .collect();
            assert!(tiers.iter().all(|&t| t == tiers[0]));
            return;
        }
    }
    panic!("no match out of eighty tanks");
}

#[test]
fn teams_share_the_same_tiers() {
    // Two tiers that can meet: every match gives each team as many tanks of
    // each tier.
    let mut registry = TankRegistry::new();
    for i in 0..40 {
        registry.register(&format!("Eight {i:02}"), 8, TankClass::Heavy, 1);
        registry.register(&format!("Nine {i:02}"), 9, TankClass::Heavy, 1);
    }
    let mut matchmaker = Matchmaker::new(10);
    for x in 0..80 {
        matchmaker.queue(registry.pick_weighted(x));
    }
    let mut matches = 0;
    for _ in 0..1000 {
        if let Some(m) = matchmaker.poll(2, 15) {
            matches += 1;
            let count = |team: usize, tier: u8| {
                m.team_tanks(team).iter().filter(|t| t.tank().tier() == tier).count()
            };
            for tier in 1..=10 {
                assert_eq!(count(0, tier), count(1, tier));
            }
            // Slot by slot, both teams hold the same tier.
            for k in 0..m.team_size() {
                assert_eq!(m.tank(0, k).tank().tier(), m.tank(1, k).tank().tier());
            }
            // Within a team, the highest tier comes first.
            for team in 0..2 {
                let tiers: Vec<u8> = m.team_tanks(team).iter().map(|t| t.tank().tier()).collect();
                assert!(tiers.windows(2).all(|w| w[0] >= w[1]));
            }
        }
    }
    assert!(matches >= 1);
}

#[test]
fn first_match_balances_classes_and_roles() {
    // No match was made before, so no wait counts as abnormal: each team gets
    // as many tanks of each tier, class and role.
    let mut registry = TankRegistry::new();
    let classes = [TankClass::Heavy, TankClass::Medium, TankClass::Light, TankClass::Destroyer];
    for i in 0..60 {
        let class = classes[i % 4];
        registry.register(&format!("Tank {i:02}"), 8, class, 1);
    }
    for name in ["EBR 105", "EBR 90", "Lynx 6x6", "Bourrasque", "Miel"] {
        registry.register(name, 8, TankClass::Light, 1);
    }
    let count = registry.len();
    let mut matchmaker = Matchmaker::new(10);
    for x in 0..count as u32 {
        matchmaker.queue(registry.pick_weighted(x));
    }
    for _ in 0..1000 {
        if let Some(m) = matchmaker.poll(2, 15) {
            let kinds = |team: usize| {
                let mut v: Vec<(u8, TankClass, String)> = m
                    .team_tanks(team)
                    .iter()
                    .map(|t| {
                        let name = t.tank().name();
                        let role = match name {
                            "EBR 105" | "EBR 90" | "Lynx 6x6" | "EBR Hotch." => "wheeled",
                            "Bourrasque" | "Miel" => "autoloader",
                            _ => "standard",
                        };
                        (t.tank().tier(), t.tank().class(), role.to_string())
                    })
                    .collect();
                v.sort_by(|a, b| (a.0, a.1.rank(), &a.2).cmp(&(b.0, b.1.rank(), &b.2)));
                v
            };
            assert_eq!(kinds(0), kinds(1));
            // The requested size, and the same class slot by slot.
            assert_eq!(m.team_size(), 15);
            for k in 0..m.team_size() {
                assert_eq!(m.tank(0, k).tank().class(), m.tank(1, k).tank().class());
            }
            return;
        }
    }
    panic!("no match out of sixty-five tanks");
}

#[test]
fn match_tiers_stay_within_four() {
    // Tanks of every tier: a match never spreads over more than five tiers.
    let mut registry = TankRegistry::new();
    for tier in 1..=10u8 {
        for i in 0..30 {
            registry.register(&format!("Tier {tier} no {i:02}"), tier, TankClass::Medium, 1);
        }
    }
    let count = registry.len();
    let mut matchmaker = Matchmaker::new(10);
    for x in 0..count as u32 {
        matchmaker.queue(registry.pick_weighted(x));
    }
    let mut matches = 0;
    for _ in 0..2000 {
        if let Some(m) = matchmaker.poll(2, 15) {
            matches += 1;
            let tiers: Vec<u8> = (0..m.tanks_count())
                .map(|k| m.tank(k / m.team_size(), k % m.team_size()).tank().tier())
                .collect();
            let lo = *tiers.iter().min().unwrap();
            let hi = *tiers.iter().max().unwrap();
            assert!(hi - lo <= 4);
        }
    }
    assert!(matches >= 1);
}

#[test]
fn top_tier_queue_of_one_kind_always_matches() {
    // Every tank at the matchmaker's top tier, of one class and role: each poll
    // with enough tanks makes a match, whatever is drawn.
    let registry = tier8_heavies(90);
    let mut matchmaker = Matchmaker::new(8);
    for x in 0..90 {
        matchmaker.queue(registry.pick_weighted(x));
    }
    for left in [60, 30, 0] {
        let m = matchmaker.poll(2, 15).expect("a match");
        assert_eq!(m.team_size(), 15);
        assert_eq!(matchmaker.len(), left);
    }
}

#[test]
fn draws_of_a_poll_are_taken_from_the_queue() {
    let registry = tier8_heavies(3);
    let mut matchmaker = Matchmaker::new(10);
    for x in 0..3 {
        matchmaker.queue(registry.pick_weighted(x));
    }
    // One value per queued tank picks the base tier.
    assert_eq!(matchmaker.tier_draw_range(), (0, 2));
    assert_eq!(matchmaker.base_tier(true, 0), 8);
    assert_eq!(matchmaker.base_tier(false, 2), 8);
    // The only tier holds its fair share: the spread is two tiers.
    assert_eq!(matchmaker.tier_spread_for(8, false), 2);
    assert_eq!(matchmaker.tier_spread_for(8, true), 2);
    // Tier ranges stop at tier 1 and at the maximum tier.
    assert_eq!(matchmaker.tier_bounds_of(8, 2, 1), (6, 9));
    assert_eq!(matchmaker.tier_bounds_of(1, 2, 5), (1, 6));
    assert_eq!(matchmaker.tier_bounds_of(9, 0, 3), (9, 10));
    // No match was made yet, so no wait counts as abnormal.
    assert!(!matchmaker.oldest_wait_abnormal(u128::MAX));
}

#[test]
fn an_over_represented_tier_spreads_less() {
    // Thirty tanks of tier 8 and one each of tiers 2, 3 and 4: tier 8 holds
    // about three times its fair share of the queue, which removes one tier of
    // spread; the others hold less than theirs and spread by two.
    let mut registry = TankRegistry::new();
    for i in 0..30 {
        registry.register(&format!("Eight {i}"), 8, TankClass::Heavy, 1);
    }
    for tier in 2..=4u8 {
        registry.register(&format!("Low {tier}"), tier, TankClass::Heavy, 1);
    }
    let mut matchmaker = Matchmaker::new(10);
    for x in 0..33 {
        matchmaker.queue(registry.pick_weighted(x));
    }
    assert_eq!(matchmaker.tier_spread_for(8, false), 1);
    assert_eq!(matchmaker.tier_spread_for(3, false), 2);
    // Every value below the queue's length picks a tier that has tanks.
    for x in 0..33 {
        let t = matchmaker.base_tier(false, x);
        assert!(t == 8 || (2..=4).contains(&t));
    }
}

#[test]
fn poll_with_gives_each_slot_the_team_of_its_drawn_rank() {
    let registry = tier8_heavies(14);
    let mut matchmaker = Matchmaker::new(10);
    for x in 0..14 {
        matchmaker.queue(registry.pick_weighted(x));
    }
    let plan_bits = vec![false; 11];
    // Each slot's first tank goes to the second free team, its second tank
    // to the only team left.
    let ranks: Vec<u32> = (0..14).map(|i| if i % 2 == 0 { 1 } else { 0 }).collect();
    let m = matchmaker
        .poll_with(2, 7, false, 8, 0, 0, &plan_bits, &ranks, 0)
        .expect("fourteen tanks of tier 8 fill two teams of seven");
    assert_eq!(matchmaker.len(), 0);
    assert_eq!(m.team_size(), 7);
    let names = |team: usize| -> Vec<String> {
        m.team_tanks(team).iter().map(|t| t.tank().name().to_string()).collect()
    };
    let odd: Vec<String> = (0..7).map(|k| format!("Heavy {:02}", 2 * k + 1)).collect();
    let even: Vec<String> = (0..7).map(|k| format!("Heavy {:02}", 2 * k)).collect();
    assert_eq!(names(0), odd);
    assert_eq!(names(1), even);
    // Every tank was queued no later than the dequeue time given.
    assert_eq!(m.wait_duration(), 0);
}

#[test]
fn poll_with_first_free_teams_alternate() {
    let registry = tier8_heavies(14);
    let mut matchmaker = Matchmaker::new(10);
    for x in 0..14 {
        matchmaker.queue(registry.pick_weighted(x));
    }
    let m = matchmaker
        .poll_with(2, 7, false, 8, 0, 0, &vec![true; 11], &vec![0; 14], 0)
        .expect("fourteen tanks of tier 8 fill two teams of seven");
    let even: Vec<String> = (0..7).map(|k| format!("Heavy {:02}", 2 * k)).collect();
    let names: Vec<String> = m.team_tanks(0).iter().map(|t| t.tank().name().to_string()).collect();
    assert_eq!(names, even);
}

#[test]
fn poll_with_an_empty_tier_gives_nothing() {
    let registry = tier8_heavies(14);
    let mut matchmaker = Matchmaker::new(10);
    for x in 0..14 {
        matchmaker.queue(registry.pick_weighted(x));
    }
    // No tank of tier 9 waits: the plan fails and the queue stays.
    assert!(matchmaker.poll_with(2, 7, false, 9, 0, 0, &vec![false; 11], &vec![0; 14], 0).is_none());
    assert_eq!(matchmaker.len(), 14);
}

#[test]
fn poll_with_handling_the_oldest_tank_needs_seven_slots() {
    let registry = tier8_heavies(14);
    let mut matchmaker = Matchmaker::new(10);
    for x in 0..14 {
        matchmaker.queue(registry.pick_weighted(x));
    }
    // Tiers 8 and 9: tier 8 takes three of seven slots, tier 9 none, and a
    // team of three is too small.
    assert!(matchmaker.poll_with(2, 7, true, 9, 1, 0, &vec![false; 11], &vec![0; 14], 0).is_none());
    assert_eq!(matchmaker.len(), 14);
    // With its coin up, tier 8 still takes only four.
    assert!(matchmaker.poll_with(2, 7, true, 9, 1, 0, &vec![true; 11], &vec![0; 14], 0).is_none());
    assert_eq!(matchmaker.len(), 14);
}

#[test]
fn queue_holds_tanks_queued_less_those_matched() {
    let registry = tier8_heavies(45);
    let mut matchmaker = Matchmaker::new(10);
    for x in 0..45 {
        matchmaker.queue(registry.pick_weighted(x));
    }
    let mut matched = 0;
    for _ in 0..50 {
        if let Some(m) = matchmaker.poll(2, 7) {
            matched += m.tanks_count();
        }
        assert_eq!(matchmaker.len() + matched, 45);
    }
    matchmaker.queue(registry.pick_weighted(0));
    assert_eq!(matchmaker.len() + matched, 46);
}
