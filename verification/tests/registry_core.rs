//! The backing table and the registry: upserts, counters, visibility,
//! renames, and cache/table convergence across a reload.

use chatcore::key::Key;
use chatcore::registry::{Command, Commands};
use chatcore::store::{EditOutcome, RenameError, Store};
use chatcore::template::Template;

fn fresh_registry() -> Commands {
    Commands::load(Store::new()).unwrap()
}

fn edit(cmds: &mut Commands, channel: &str, name: &str, text: &str) {
    let template = Template::compile(text).unwrap();
    cmds.edit(channel, name, template);
}

#[test]
fn key_lowercases_name() {
    let k = Key::new("chan", "HeLLo");
    assert_eq!(k.channel(), "chan");
    assert_eq!(k.name(), "hello");
    assert!(Key::new("chan", "HELLO") == Key::new("chan", "hello"));
}

#[test]
fn store_edit_upserts() {
    let mut store = Store::new();
    let k = Key::new("c", "a");
    match store.edit(&k, "one") {
        EditOutcome::Fresh => {},
        _ => panic!("expected a fresh row"),
    }
    match store.edit(&k, "two") {
        EditOutcome::Existing { count, group } => {
            assert_eq!(count, 0);
            assert_eq!(group, None);
        },
        _ => panic!("expected an existing row"),
    }
    assert!(store.contains(&k));
}

#[test]
fn store_edit_suppressed_on_disabled() {
    let mut store = Store::new();
    let k = Key::new("c", "a");
    store.edit(&k, "one");
    assert!(store.disable(&k));
    match store.edit(&k, "two") {
        EditOutcome::Suppressed => {},
        _ => panic!("expected suppression"),
    }
    assert!(store.enable(&k));
    match store.edit(&k, "three") {
        EditOutcome::Existing { .. } => {},
        _ => panic!("expected an existing row"),
    }
}

#[test]
fn store_increment_counts_matches() {
    let mut store = Store::new();
    let k = Key::new("c", "a");
    assert!(!store.increment(&k));
    store.edit(&k, "t");
    assert!(store.increment(&k));
    assert!(store.increment(&k));
    assert!(store.delete(&k));
    assert!(!store.increment(&k));
    assert!(!store.delete(&k));
}

#[test]
fn store_rename_reports_conflicts() {
    let mut store = Store::new();
    let a = Key::new("c", "a");
    let b = Key::new("c", "b");
    assert_eq!(store.rename(&a, &b), Err(RenameError::Missing));
    store.edit(&a, "t");
    assert_eq!(store.rename(&a, &b), Ok(()));
    assert!(!store.contains(&a));
    assert!(store.contains(&b));
    store.edit(&a, "u");
    assert_eq!(store.rename(&a, &b), Err(RenameError::Conflict));
    assert!(store.contains(&a));
    assert!(store.contains(&b));
}

#[test]
fn registry_round_trip() {
    let mut cmds = fresh_registry();
    edit(&mut cmds, "chan", "Greet", "hi {{caller}}");
    let c = cmds.get_any("chan", "greet").expect("entity should be cached");
    assert_eq!(c.template.source(), "hi {{caller}}");
    assert_eq!(c.count(), 0);
    let c2 = cmds.get("chan", "GREET").expect("lookup is case-insensitive");
    assert_eq!(c2.template.source(), "hi {{caller}}");
}

#[test]
fn registry_edit_preserves_count_and_group() {
    let mut cmds = fresh_registry();
    edit(&mut cmds, "chan", "a", "one");
    assert!(cmds.increment("chan", "a"));
    assert!(cmds.edit_group("chan", "a", Some("g".to_string())));
    edit(&mut cmds, "chan", "a", "two");
    let c = cmds.get("chan", "a").unwrap();
    assert_eq!(c.count(), 1);
    assert_eq!(c.group, Some("g".to_string()));
    assert_eq!(c.template.source(), "two");
}

#[test]
fn registry_suppressed_edit_stays_hidden() {
    let mut cmds = fresh_registry();
    edit(&mut cmds, "chan", "a", "one");
    assert!(cmds.disable("chan", "a"));
    edit(&mut cmds, "chan", "a", "two");
    assert!(cmds.get("chan", "a").is_none());
    assert!(cmds.get_any("chan", "a").is_none());
    // The text reached storage all the same; enabling and reloading shows it.
    assert!(cmds.enable("chan", "a"));
    let reloaded = Commands::load(cmds.db().duplicate()).unwrap();
    let c = reloaded.get("chan", "a").unwrap();
    assert_eq!(c.template.source(), "two");
}

#[test]
fn scenario_edit_increment_disable() {
    let mut cmds = fresh_registry();
    edit(&mut cmds, "chan1", "hello", "Hello, {{caller}}!");
    let count0 = cmds.get("chan1", "hello").unwrap().count();
    assert_eq!(count0, 0);
    for _ in 0..3 {
        assert!(cmds.increment("chan1", "hello"));
    }
    assert_eq!(cmds.get("chan1", "hello").unwrap().count(), 3);
    assert!(cmds.disable("chan1", "hello"));
    assert!(cmds.get("chan1", "hello").is_none());
    let c = cmds.get_any("chan1", "hello").unwrap();
    assert_eq!(c.count(), 3);
    assert!(c.disabled);
}

#[test]
fn disable_hides_enable_restores() {
    let mut cmds = fresh_registry();
    edit(&mut cmds, "chan", "a", "text");
    assert!(cmds.increment("chan", "a"));
    assert!(cmds.disable("chan", "a"));
    assert!(cmds.get("chan", "a").is_none());
    let hidden = cmds.get_any("chan", "a").unwrap();
    assert_eq!(hidden.count(), 1);
    assert_eq!(hidden.template.source(), "text");
    assert!(cmds.enable("chan", "a"));
    let back = cmds.get("chan", "a").unwrap();
    assert_eq!(back.count(), 1);
    assert_eq!(back.template.source(), "text");
}

#[test]
fn rename_is_atomic() {
    let mut cmds = fresh_registry();
    edit(&mut cmds, "chan", "a", "text");
    assert!(cmds.increment("chan", "a"));
    assert!(cmds.edit_group("chan", "a", Some("g".to_string())));
    assert_eq!(cmds.rename("chan", "a", "b"), Ok(()));
    assert!(cmds.get("chan", "a").is_none());
    let b = cmds.get("chan", "b").unwrap();
    assert_eq!(b.count(), 1);
    assert_eq!(b.group, Some("g".to_string()));
    assert!(!b.disabled);
    // Renaming onto an existing name conflicts and changes nothing.
    edit(&mut cmds, "chan", "a", "other");
    assert_eq!(cmds.rename("chan", "a", "b"), Err(RenameError::Conflict));
    assert_eq!(cmds.get("chan", "a").unwrap().template.source(), "other");
    assert_eq!(cmds.get("chan", "b").unwrap().count(), 1);
    assert_eq!(
        cmds.rename("chan", "missing", "c"),
        Err(RenameError::Missing)
    );
}

#[test]
fn group_set_and_clear() {
    let mut cmds = fresh_registry();
    edit(&mut cmds, "chan", "a", "text");
    assert!(cmds.edit_group("chan", "a", Some("team".to_string())));
    assert_eq!(cmds.get("chan", "a").unwrap().group, Some("team".to_string()));
    assert!(cmds.edit_group("chan", "a", None));
    assert_eq!(cmds.get("chan", "a").unwrap().group, None);
    assert!(!cmds.edit_group("chan", "missing", None));
}

#[test]
fn list_shows_enabled_entities_of_channel() {
    let mut cmds = fresh_registry();
    edit(&mut cmds, "chan", "a", "1");
    edit(&mut cmds, "chan", "b", "2");
    edit(&mut cmds, "other", "c", "3");
    assert!(cmds.disable("chan", "b"));
    let listed = cmds.list("chan");
    let names: Vec<&str> = listed.iter().map(|c| c.key.name()).collect();
    assert_eq!(names, vec!["a"]);
}

#[test]
fn three_records_survive_reload() {
    let mut cmds = fresh_registry();
    edit(&mut cmds, "chan", "a", "one {{caller}}");
    edit(&mut cmds, "chan", "b", "two");
    edit(&mut cmds, "other", "c", "three");
    assert!(cmds.increment("chan", "a"));
    assert!(cmds.increment("chan", "a"));
    assert!(cmds.disable("chan", "b"));
    assert!(cmds.edit_group("other", "c", Some("g".to_string())));

    let reloaded = Commands::load(cmds.db().duplicate()).unwrap();
    for (channel, name) in [("chan", "a"), ("chan", "b"), ("other", "c")] {
        let before = cmds.get_any(channel, name).unwrap();
        let after = reloaded.get_any(channel, name).unwrap();
        assert_eq!(before.key.name(), after.key.name());
        assert_eq!(before.template.source(), after.template.source());
        assert_eq!(before.count(), after.count());
        assert_eq!(before.group, after.group);
        assert_eq!(before.disabled, after.disabled);
    }
}

#[test]
fn load_refuses_corrupt_row() {
    let mut store = Store::new();
    store.edit(&Key::new("chan", "ok"), "fine");
    store.edit(&Key::new("chan", "bad"), "broken {{oops");
    assert!(Commands::load(store).is_err());
}

#[test]
fn command_from_db_and_render() {
    let mut store = Store::new();
    store.edit(&Key::new("chan", "a"), "hey {{caller}}");
    let row = &store.rows()[0];
    let cmd = Command::from_db(row).unwrap();
    assert_eq!(cmd.key.name(), "a");
    assert!(cmd.has_var("caller"));
    assert!(!cmd.has_var("channel"));
    let ctx = vec![("caller".to_string(), "viewer".to_string())];
    assert_eq!(cmd.render(&ctx).unwrap(), "hey viewer");
    let missing: Vec<(String, String)> = Vec::new();
    assert_eq!(cmd.render(&missing).unwrap_err().var, "caller");
}

#[test]
fn increment_stops_at_ceiling() {
    let mut cmds = fresh_registry();
    edit(&mut cmds, "chan", "a", "t");
    assert!(cmds.increment("chan", "a"));
    assert!(!cmds.increment("chan", "missing"));
}
