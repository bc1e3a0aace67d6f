//! The template engine and the dispatch router.

use chatcore::registry::Commands;
use chatcore::router::{response_text, route, Response, RouterOutcome};
use chatcore::store::Store;
use chatcore::template::{CompileError, Template};

fn fresh_registry() -> Commands {
    Commands::load(Store::new()).unwrap()
}

fn reply(cmds: &mut Commands, is_moderator: bool, message: &str) -> String {
    let out = route(cmds, "chan", "viewer", is_moderator, message);
    response_text(&out.response)
}

#[test]
fn template_compile_and_render() {
    let t = Template::compile("Hello, {{caller}}!").unwrap();
    assert_eq!(t.source(), "Hello, {{caller}}!");
    let vars = t.vars();
    assert_eq!(vars, vec!["caller".to_string()]);
    assert!(t.has_var("caller"));
    assert!(!t.has_var("channel"));
    let ctx = vec![("caller".to_string(), "viewer".to_string())];
    assert_eq!(t.render(&ctx).unwrap(), "Hello, viewer!");
}

#[test]
fn template_unclosed_is_refused() {
    assert_eq!(Template::compile("broken {{oops").unwrap_err(), CompileError::Unclosed);
    assert!(Template::compile("odd }} braces {").is_ok());
    assert!(Template::compile("").is_ok());
}

#[test]
fn template_first_binding_wins() {
    let t = Template::compile("{{x}}").unwrap();
    let ctx = vec![
        ("x".to_string(), "first".to_string()),
        ("x".to_string(), "second".to_string()),
    ];
    assert_eq!(t.render(&ctx).unwrap(), "first");
}

#[test]
fn template_reports_first_missing_variable() {
    let t = Template::compile("{{a}} and {{b}}").unwrap();
    let ctx = vec![("b".to_string(), "present".to_string())];
    assert_eq!(t.render(&ctx).unwrap_err().var, "a");
}

#[test]
fn route_edit_and_invoke() {
    let mut cmds = fresh_registry();
    assert_eq!(reply(&mut cmds, true, "edit hello Hello, {{caller}}!"), "Edited command.");
    let out = route(&mut cmds, "chan", "viewer", false, "hello");
    assert_eq!(response_text(&out.response), "Hello, viewer!");
    let (channel, name) = out.increment.expect("an increment is due");
    assert!(cmds.increment(&channel, &name));
    assert_eq!(cmds.get("chan", "hello").unwrap().count(), 1);
}

#[test]
fn route_requires_moderator_for_mutations() {
    let mut cmds = fresh_registry();
    assert_eq!(reply(&mut cmds, false, "edit hello hi"), "Moderator access required.");
    assert_eq!(reply(&mut cmds, false, "delete hello"), "Moderator access required.");
    assert_eq!(reply(&mut cmds, false, "rename a b"), "Moderator access required.");
    assert!(cmds.get_any("chan", "hello").is_none());
}

#[test]
fn route_usage_lines() {
    let mut cmds = fresh_registry();
    assert_eq!(
        reply(&mut cmds, true, ""),
        "Expected: show, list, edit, delete, rename, enable, disable, or group."
    );
    assert_eq!(reply(&mut cmds, true, "show"), "Expected: !command show <name>");
    assert_eq!(reply(&mut cmds, true, "rename onlyone"), "Expected: !command rename <from> <to>");
}

#[test]
fn route_edit_without_text_changes_nothing() {
    let mut cmds = fresh_registry();
    assert_eq!(
        reply(&mut cmds, true, "edit hello"),
        "Expected: !command edit <name> <template>"
    );
    assert_eq!(
        reply(&mut cmds, true, "edit hello    "),
        "Expected: !command edit <name> <template>"
    );
    assert!(cmds.get_any("chan", "hello").is_none());
}

#[test]
fn route_gates_malformed_admin_lines_on_moderator() {
    let mut cmds = fresh_registry();
    // The capability is checked before the arguments are even looked at.
    assert_eq!(reply(&mut cmds, false, "edit hello"), "Moderator access required.");
    assert_eq!(reply(&mut cmds, false, "delete"), "Moderator access required.");
    assert_eq!(reply(&mut cmds, false, "rename onlyone"), "Moderator access required.");
    // A bare "show" or an empty line is not administrative.
    assert_eq!(reply(&mut cmds, false, "show"), "Expected: !command show <name>");
    assert_eq!(
        reply(&mut cmds, false, ""),
        "Expected: show, list, edit, delete, rename, enable, disable, or group."
    );
}

#[test]
fn route_show_and_list() {
    let mut cmds = fresh_registry();
    assert_eq!(reply(&mut cmds, true, "list"), "No custom commands.");
    assert_eq!(reply(&mut cmds, true, "edit alpha A text"), "Edited command.");
    assert_eq!(reply(&mut cmds, true, "edit beta B text"), "Edited command.");
    assert_eq!(
        reply(&mut cmds, true, "show alpha"),
        "alpha -> template = \"A text\", group = *none*, disabled = false"
    );
    assert_eq!(reply(&mut cmds, true, "show missing"), "No command named `missing`.");
    assert_eq!(reply(&mut cmds, true, "list"), "alpha, beta");
    // The listing is sorted ascending whatever the edit order was.
    assert_eq!(reply(&mut cmds, true, "edit zeta Z text"), "Edited command.");
    assert_eq!(reply(&mut cmds, true, "edit delta D text"), "Edited command.");
    assert_eq!(reply(&mut cmds, true, "list"), "alpha, beta, delta, zeta");
}

#[test]
fn route_structural_operations() {
    let mut cmds = fresh_registry();
    assert_eq!(reply(&mut cmds, true, "edit a One"), "Edited command.");
    assert_eq!(reply(&mut cmds, true, "rename a b"), "Renamed command a -> b.");
    assert_eq!(reply(&mut cmds, true, "edit a Two"), "Edited command.");
    assert_eq!(reply(&mut cmds, true, "rename a b"), "A command named `b` already exists.");
    assert_eq!(reply(&mut cmds, true, "delete a"), "Deleted command `a`");
    assert_eq!(reply(&mut cmds, true, "delete a"), "No command named `a`.");
    assert_eq!(reply(&mut cmds, true, "disable b"), "Disabled command `b`");
    assert_eq!(reply(&mut cmds, true, "b"), "No command named `b`.");
    assert_eq!(reply(&mut cmds, true, "enable b"), "Enabled command `b`");
    assert_eq!(reply(&mut cmds, true, "group b team"), "Set group for command `b` to team");
    assert_eq!(reply(&mut cmds, true, "group b"), "Command `b` belongs to group: team");
    assert_eq!(reply(&mut cmds, true, "clear-group b"), "Removed command `b` from its group");
    assert_eq!(reply(&mut cmds, true, "group b"), "Command `b` does not belong to a group");
}

#[test]
fn route_quoted_names_and_compile_failure() {
    let mut cmds = fresh_registry();
    assert_eq!(reply(&mut cmds, true, "edit bad {{oops"), "Could not compile the template.");
    assert!(cmds.get_any("chan", "bad").is_none());
    assert_eq!(reply(&mut cmds, true, "edit \"two words\" some text"), "Edited command.");
    assert_eq!(cmds.get("chan", "two words").unwrap().template.source(), "some text");
}

#[test]
fn route_render_failure_reports_variable() {
    let mut cmds = fresh_registry();
    assert_eq!(reply(&mut cmds, true, "edit odd {{nosuch}}"), "Edited command.");
    let out = route(&mut cmds, "chan", "viewer", false, "odd");
    assert_eq!(response_text(&out.response), "Missing variable `nosuch` in template.");
    assert!(out.increment.is_none());
    assert_eq!(cmds.get("chan", "odd").unwrap().count(), 0);
}

#[test]
fn route_invoke_binds_channel_and_caller() {
    let mut cmds = fresh_registry();
    assert_eq!(reply(&mut cmds, true, "edit where {{caller}} in {{channel}}"), "Edited command.");
    let out: RouterOutcome = route(&mut cmds, "chan", "viewer", false, "where");
    match out.response {
        Response::Rendered(text) => assert_eq!(text, "viewer in chan"),
        _ => panic!("expected a rendered response"),
    }
}
