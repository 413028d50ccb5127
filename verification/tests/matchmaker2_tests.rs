use tank_matchmaker::matchmaker2::{Matchmaker, Player};
use tank_matchmaker::tank::{TankClass, TankRegistry};

fn tier8_heavies(count: usize) -> TankRegistry {
    let mut registry = TankRegistry::new();
    for i in 0..count {
        registry.register(&format!("Heavy {i:02}"), 8, TankClass::Heavy, 1);
    }
    registry
}

#[test]
fn player_keeps_its_tank() {
    let registry = tier8_heavies(1);
    let player = Player::new(registry.pick_weighted(0));
    assert_eq!(player.tank().name(), "Heavy 00");
}

#[test]
fn thirtieth_player_completes_the_match() {
    let registry = tier8_heavies(30);
    let mut matchmaker = Matchmaker::new();
    for x in 0..29 {
        assert!(matchmaker.queue(Player::new(registry.pick_weighted(x))).is_none());
    }
    let m = matchmaker
        .queue(Player::new(registry.pick_weighted(29)))
        .expect("thirty players make a match");
    assert_eq!(m.teams_size(), 15);
    assert_eq!(m.teams_count(), 2);
    assert_eq!(m.players_count(), 30);
    for team in 0..2 {
        let players = m.team_players(team);
        assert_eq!(players.len(), 15);
        for pair in players.windows(2) {
            assert!(pair[0].tank().name() <= pair[1].tank().name());
        }
        assert_eq!(m.player(team, 0).tank().name(), players[0].tank().name());
    }
    let mut names: Vec<&str> = (0..30).map(|k| m.player(k / 15, k % 15).tank().name()).collect();
    names.sort();
    names.dedup();
    assert_eq!(names.len(), 30);
}

#[test]
fn far_tiers_open_separate_matches() {
    // A tier 3 tank (range 2..=4) and a tier 9 tank (range 7..=10) never share a
    // match, so neither match fills before thirty of its own.
    let mut registry = TankRegistry::new();
    for i in 0..30 {
        registry.register(&format!("Low {i:02}"), 3, TankClass::Light, 1);
    }
    for i in 0..30 {
        registry.register(&format!("High {i:02}"), 9, TankClass::Light, 1);
    }
    let mut matchmaker = Matchmaker::new();
    let mut done = Vec::new();
    for k in 0..30 {
        for x in [k, 30 + k] {
            if let Some(m) = matchmaker.queue(Player::new(registry.pick_weighted(x))) {
                done.push(m);
            }
        }
    }
    assert_eq!(done.len(), 2);
    for m in &done {
        let tiers: Vec<u8> = (0..30).map(|k| m.player(k / 15, k % 15).tank().tier()).collect();
        assert!(tiers.iter().all(|&t| t == tiers[0]));
    }
}

#[test]
fn teams_are_sorted_by_tier_then_class() {
    let mut registry = TankRegistry::new();
    for i in 0..10 {
        registry.register(&format!("H {i}"), 8, TankClass::Heavy, 1);
        registry.register(&format!("M {i}"), 8, TankClass::Medium, 1);
        registry.register(&format!("D {i}"), 8, TankClass::Destroyer, 1);
    }
    let mut matchmaker = Matchmaker::new();
    let mut result = None;
    for x in 0..30 {
        if let Some(m) = matchmaker.queue(Player::new(registry.pick_weighted(x))) {
            result = Some(m);
        }
    }
    let m = result.expect("thirty players of tier 8 make a match");
    for team in 0..2 {
        let ranks: Vec<u8> = m.team_players(team).iter().map(|p| p.tank().class().rank()).collect();
        assert!(ranks.windows(2).all(|w| w[0] <= w[1]));
    }
}

#[test]
fn matched_players_stay_within_three_tiers() {
    // Tanks of every tier and class, queued in a mixed order: every match made
    // holds players at most three tiers apart.
    let classes = [
        TankClass::Heavy,
        TankClass::Medium,
        TankClass::Destroyer,
        TankClass::Light,
        TankClass::Clicker,
    ];
    let mut registry = TankRegistry::new();
    for i in 0..500u32 {
        let tier = (i * 7 % 10 + 1) as u8;
        registry.register(&format!("Tank {i:03}"), tier, classes[(i % 5) as usize], 1);
    }
    let mut matchmaker = Matchmaker::new();
    let mut matches = 0;
    for x in 0..500u32 {
        if let Some(m) = matchmaker.queue(Player::new(registry.pick_weighted(x))) {
            matches += 1;
            let tiers: Vec<u8> = (0..30).map(|k| m.player(k / 15, k % 15).tank().tier()).collect();
            let lo = *tiers.iter().min().unwrap();
            let hi = *tiers.iter().max().unwrap();
            assert!(hi - lo <= 3);
            // Each tier, and each tier and class, is spread evenly over both teams.
            for tier in 1..=10u8 {
                let count = |team: usize, class: Option<TankClass>| {
                    m.team_players(team)
                        .iter()
                        .filter(|p| p.tank().tier() == tier && class.map_or(true, |c| p.tank().class() == c))
                        .count() as i64
                };
                assert!((count(0, None) - count(1, None)).abs() <= 2);
                for class in classes {
                    assert!((count(0, Some(class)) - count(1, Some(class))).abs() <= 2);
                }
            }
        }
    }
    assert!(matches >= 1);
}

#[test]
fn same_players_make_the_same_match() {
    // Thirty tanks that differ in nothing the order looks at: two matchmakers
    // fed them alike list them alike.
    let mut registry = TankRegistry::new();
    for _ in 0..30 {
        registry.register("Twin", 8, TankClass::Heavy, 1);
    }
    let mut a = Matchmaker::new();
    let mut b = Matchmaker::new();
    let (mut ma, mut mb) = (None, None);
    for x in 0..30 {
        ma = a.queue(Player::new(registry.pick_weighted(x)));
        mb = b.queue(Player::new(registry.pick_weighted(x)));
    }
    let (ma, mb) = (ma.expect("a match"), mb.expect("a match"));
    for k in 0..30 {
        let (pa, pb) = (ma.player(k / 15, k % 15), mb.player(k / 15, k % 15));
        assert!(std::ptr::eq(pa.tank(), pb.tank()));
    }
}

#[test]
fn one_kind_players_make_a_match_every_thirty() {
    // Ninety players of one tier and class: calls 30, 60 and 90 return a match
    // holding the player of that call, and no other call does.
    let registry = tier8_heavies(90);
    let mut matchmaker = Matchmaker::new();
    for x in 0..90u32 {
        let tank = registry.pick_weighted(x);
        let r = matchmaker.queue(Player::new(tank));
        if (x + 1) % 30 == 0 {
            let m = r.expect("a match every thirty players");
            assert!((0..30).any(|k| std::ptr::eq(m.player(k / 15, k % 15).tank(), tank)));
        } else {
            assert!(r.is_none());
        }
    }
}
