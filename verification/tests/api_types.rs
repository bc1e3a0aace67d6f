//! The leaderboard value types and the cooldown.

use chatcore::cooldown::Cooldown;
use chatcore::duration::Duration;
use chatcore::speedrun::{Embed, Embeds, Empty, Names, Variables};

#[test]
fn names_prefer_japanese() {
    let plain = Names {
        international: "Runner".to_string(),
        japanese: None,
        twitch: None,
    };
    assert_eq!(plain.name(), "Runner");
    let jp = Names {
        international: "Runner".to_string(),
        japanese: Some("Sofi".to_string()),
        twitch: None,
    };
    assert_eq!(jp.name(), "Sofi");
}

#[test]
fn names_match_lowercased() {
    let names = Names {
        international: "SpeedKing".to_string(),
        japanese: None,
        twitch: Some("KingOfSpeed".to_string()),
    };
    assert!(names.matches("speedk"));
    assert!(names.matches("ofspeed"));
    assert!(!names.matches("queen"));
}

#[test]
fn embeds_build_queries() {
    let mut embeds = Embeds::default();
    assert_eq!(embeds.to_query(), None);
    embeds.push(Embed::Players);
    embeds.push(Embed::Variables);
    embeds.push(Embed::Game);
    assert_eq!(embeds.to_query(), Some("players,variables,game".to_string()));
    assert_eq!(Embed::Players.id(), "players");
    let _ = Empty {};
}

#[test]
fn variables_cache_key_joins_bindings() {
    let mut vars = Variables::new();
    vars.insert("speed", "fast");
    vars.insert("glitch", "none");
    assert_eq!(vars.cache_key(), "glitch:none/speed:fast");
    // Binding an existing name replaces its value in place.
    vars.insert("speed", "slow");
    assert_eq!(vars.cache_key(), "glitch:none/speed:slow");
    // The key depends on what is bound, not on insertion order.
    let mut other = Variables::new();
    other.insert("speed", "slow");
    other.insert("glitch", "none");
    assert_eq!(other.cache_key(), vars.cache_key());
    assert_eq!(Variables::new().cache_key(), "");
}

#[test]
fn cooldown_blocks_until_elapsed() {
    let mut cd = Cooldown::from_duration(Duration::from_millis(1_000));
    assert_eq!(cd.check(500), None);
    cd.poke(500);
    let remaining = cd.check(800).expect("still cooling down");
    assert_eq!(remaining.as_millis(), 700);
    assert_eq!(cd.check(1_500), None);
    cd.poke(1_500);
    assert!(cd.check(1_400).is_some());
}

#[test]
fn cooldown_is_open_grants_first_call() {
    let mut cd = Cooldown::from_duration(Duration::from_millis(3_600_000));
    assert!(cd.is_open());
    assert!(cd.last_action_at.is_some());
}
