//! The dispatch router: one inbound chat line is tokenized, its leading
//! word selects an administrative sub-command or falls through to ordinary
//! invocation, and exactly one response comes back. Administrative
//! mutations require the moderator capability and go through the registry;
//! an invocation renders the entity and schedules its usage bump as an
//! action for the caller to perform, so the response never waits for it.

use crate::key::key_view;
use crate::registry::{
    cmd_model, display_of, m_edit_cache, m_edit_store, m_get, m_get_any, Commands, EntityModel,
};
use crate::store::{opt_view, RenameError, RowModel};
use crate::template::{pairs_map, rend, tpl_parse, Template};
use crate::textfmt::{distinct_seqs, join, join_sep, sort_names, sorted_seqs, strings_view};
use crate::urls::{trim, trim_of};
use crate::words::{str_eq, word_split, Words};
use vstd::prelude::*;

verus! {

/// Which usage line to show.
#[derive(Clone, Copy, Debug, PartialEq, Eq, Structural)]
pub enum UsageTopic {
    /// No sub-command at all.
    General,
    /// "show" without a name.
    Show,
    /// "edit" without a name.
    Edit,
    /// "delete" without a name.
    Delete,
    /// "rename" without both names.
    Rename,
    /// "enable" without a name.
    Enable,
    /// "disable" without a name.
    Disable,
    /// "group" without a name.
    Group,
    /// "clear-group" without a name.
    ClearGroup,
}

/// A parsed chat line.
#[derive(Debug)]
pub enum Parsed {
    /// List the channel's entities.
    List,
    /// Show one entity, disabled or not.
    Show(String),
    /// Upsert an entity: its name and the template text after it.
    Edit(String, String),
    /// Delete an entity.
    Delete(String),
    /// Rename an entity.
    Rename(String, String),
    /// Make an entity visible.
    Enable(String),
    /// Hide an entity.
    Disable(String),
    /// Query or set an entity's group.
    Group(String, Option<String>),
    /// Clear an entity's group.
    ClearGroup(String),
    /// Ordinary invocation of the named entity.
    Invoke(String),
    /// A malformed command: answer with a usage line.
    Usage(UsageTopic),
}

/// The mathematical shape of a parsed line.
pub enum ParsedView {
    /// List the channel's entities.
    List,
    /// Show one entity.
    Show(Seq<char>),
    /// Upsert an entity.
    Edit(Seq<char>, Seq<char>),
    /// Delete an entity.
    Delete(Seq<char>),
    /// Rename an entity.
    Rename(Seq<char>, Seq<char>),
    /// Make an entity visible.
    Enable(Seq<char>),
    /// Hide an entity.
    Disable(Seq<char>),
    /// Query or set an entity's group.
    Group(Seq<char>, Option<Seq<char>>),
    /// Clear an entity's group.
    ClearGroup(Seq<char>),
    /// Ordinary invocation.
    Invoke(Seq<char>),
    /// A malformed command.
    Usage(UsageTopic),
}

/// The shape of a parsed line.
pub open spec fn parsed_view(p: Parsed) -> ParsedView {
    match p {
        Parsed::List => ParsedView::List,
        Parsed::Show(n) => ParsedView::Show(n@),
        Parsed::Edit(n, t) => ParsedView::Edit(n@, t@),
        Parsed::Delete(n) => ParsedView::Delete(n@),
        Parsed::Rename(f, t) => ParsedView::Rename(f@, t@),
        Parsed::Enable(n) => ParsedView::Enable(n@),
        Parsed::Disable(n) => ParsedView::Disable(n@),
        Parsed::Group(n, g) => ParsedView::Group(n@, opt_view(g)),
        Parsed::ClearGroup(n) => ParsedView::ClearGroup(n@),
        Parsed::Invoke(n) => ParsedView::Invoke(n@),
        Parsed::Usage(t) => ParsedView::Usage(t),
    }
}

/// What a chat line parses to. The first word selects the sub-command; an
/// unknown word is taken as the name of the entity to invoke, an absent
/// one asks for the general usage line. A sub-command missing a required
/// name asks for its own usage line and must change nothing; so does an
/// edit whose trimmed template text after the name is empty. The template
/// text of an edit is the trimmed rest of the line after the name.
pub open spec fn parse_model(msg: Seq<char>) -> ParsedView {
    match word_split(msg) {
        None => ParsedView::Usage(UsageTopic::General),
        Some(tr) => {
            let t = tr.0;
            let r1 = tr.1;
            if t == "list"@ {
                ParsedView::List
            } else if t == "show"@ {
                match word_split(r1) {
                    None => ParsedView::Usage(UsageTopic::Show),
                    Some(nr) => ParsedView::Show(nr.0),
                }
            } else if t == "edit"@ {
                match word_split(r1) {
                    None => ParsedView::Usage(UsageTopic::Edit),
                    Some(nr) => if trim_of(nr.1).len() == 0 {
                        ParsedView::Usage(UsageTopic::Edit)
                    } else {
                        ParsedView::Edit(nr.0, trim_of(nr.1))
                    },
                }
            } else if t == "delete"@ {
                match word_split(r1) {
                    None => ParsedView::Usage(UsageTopic::Delete),
                    Some(nr) => ParsedView::Delete(nr.0),
                }
            } else if t == "rename"@ {
                match word_split(r1) {
                    None => ParsedView::Usage(UsageTopic::Rename),
                    Some(fr) => match word_split(fr.1) {
                        None => ParsedView::Usage(UsageTopic::Rename),
                        Some(to) => ParsedView::Rename(fr.0, to.0),
                    },
                }
            } else if t == "enable"@ {
                match word_split(r1) {
                    None => ParsedView::Usage(UsageTopic::Enable),
                    Some(nr) => ParsedView::Enable(nr.0),
                }
            } else if t == "disable"@ {
                match word_split(r1) {
                    None => ParsedView::Usage(UsageTopic::Disable),
                    Some(nr) => ParsedView::Disable(nr.0),
                }
            } else if t == "group"@ {
                match word_split(r1) {
                    None => ParsedView::Usage(UsageTopic::Group),
                    Some(nr) => match word_split(nr.1) {
                        None => ParsedView::Group(nr.0, None),
                        Some(gr) => ParsedView::Group(nr.0, Some(gr.0)),
                    },
                }
            } else if t == "clear-group"@ {
                match word_split(r1) {
                    None => ParsedView::Usage(UsageTopic::ClearGroup),
                    Some(nr) => ParsedView::ClearGroup(nr.0),
                }
            } else {
                ParsedView::Invoke(t)
            }
        },
    }
}

/// Parse one chat line, as `parse_model` describes it.
pub fn parse(message: &str) -> (r: Parsed)
    ensures
        parsed_view(r) == parse_model(message@),
{
    let mut w = Words::new(message);
    let t = match w.next() {
        None => {
            return Parsed::Usage(UsageTopic::General);
        },
        Some(t) => t,
    };
    if str_eq(t, "list") {
        Parsed::List
    } else if str_eq(t, "show") {
        match w.next() {
            None => Parsed::Usage(UsageTopic::Show),
            Some(n) => Parsed::Show(String::from_str(n)),
        }
    } else if str_eq(t, "edit") {
        match w.next() {
            None => Parsed::Usage(UsageTopic::Edit),
            Some(n) => {
                let text = trim(w.rest());
                if text.unicode_len() == 0 {
                    Parsed::Usage(UsageTopic::Edit)
                } else {
                    Parsed::Edit(String::from_str(n), String::from_str(text))
                }
            },
        }
    } else if str_eq(t, "delete") {
        match w.next() {
            None => Parsed::Usage(UsageTopic::Delete),
            Some(n) => Parsed::Delete(String::from_str(n)),
        }
    } else if str_eq(t, "rename") {
        match w.next() {
            None => Parsed::Usage(UsageTopic::Rename),
            Some(f) => match w.next() {
                None => Parsed::Usage(UsageTopic::Rename),
                Some(to) => Parsed::Rename(String::from_str(f), String::from_str(to)),
            },
        }
    } else if str_eq(t, "enable") {
        match w.next() {
            None => Parsed::Usage(UsageTopic::Enable),
            Some(n) => Parsed::Enable(String::from_str(n)),
        }
    } else if str_eq(t, "disable") {
        match w.next() {
            None => Parsed::Usage(UsageTopic::Disable),
            Some(n) => Parsed::Disable(String::from_str(n)),
        }
    } else if str_eq(t, "group") {
        match w.next() {
            None => Parsed::Usage(UsageTopic::Group),
            Some(n) => match w.next() {
                None => Parsed::Group(String::from_str(n), None),
                Some(g) => Parsed::Group(String::from_str(n), Some(String::from_str(g))),
            },
        }
    } else if str_eq(t, "clear-group") {
        match w.next() {
            None => Parsed::Usage(UsageTopic::ClearGroup),
            Some(n) => Parsed::ClearGroup(String::from_str(n)),
        }
    } else {
        Parsed::Invoke(String::from_str(t))
    }
}

/// Whether the usage topic belongs to a moderator-only sub-command. Every
/// sub-command but `show` asks for the capability; a line with no
/// sub-command at all names nothing administrative, so it only gets the
/// general usage line.
pub open spec fn admin_topic(t: UsageTopic) -> bool {
    !(t is General || t is Show)
}

/// Whether `t` belongs to a moderator-only sub-command.
fn is_admin_topic(t: UsageTopic) -> (r: bool)
    ensures
        r == admin_topic(t),
{
    match t {
        UsageTopic::General => false,
        UsageTopic::Show => false,
        _ => true,
    }
}

/// One response to the caller.
#[derive(Debug)]
pub enum Response {
    /// A usage line.
    Usage(UsageTopic),
    /// The caller lacks the moderator capability.
    ModeratorRequired,
    /// The names of the channel's enabled entities.
    List(Vec<String>),
    /// One entity's stored name and display line.
    Show(String, String),
    /// The edit was applied.
    Edited,
    /// The template text did not compile.
    CompileFailed,
    /// The named entity was deleted.
    Deleted(String),
    /// The entity was renamed.
    Renamed(String, String),
    /// The rename target already exists.
    RenameConflict(String),
    /// No entity of that name.
    NotFound(String),
    /// The entity is visible again.
    Enabled(String),
    /// The entity is hidden.
    Disabled(String),
    /// The entity's stored name and its group.
    GroupIs(String, String),
    /// The entity belongs to no group.
    NoGroup(String),
    /// The entity's group was set.
    GroupSet(String, String),
    /// The entity's group was cleared.
    GroupCleared(String),
    /// The rendered template.
    Rendered(String),
    /// The template referenced a variable the context misses.
    RenderFailed(String),
}

/// The mathematical shape of a response.
pub enum ResponseView {
    /// A usage line.
    Usage(UsageTopic),
    /// The caller lacks the moderator capability.
    ModeratorRequired,
    /// The names of the channel's enabled entities.
    List(Seq<Seq<char>>),
    /// One entity's stored name and display line.
    Show(Seq<char>, Seq<char>),
    /// The edit was applied.
    Edited,
    /// The template text did not compile.
    CompileFailed,
    /// The named entity was deleted.
    Deleted(Seq<char>),
    /// The entity was renamed.
    Renamed(Seq<char>, Seq<char>),
    /// The rename target already exists.
    RenameConflict(Seq<char>),
    /// No entity of that name.
    NotFound(Seq<char>),
    /// The entity is visible again.
    Enabled(Seq<char>),
    /// The entity is hidden.
    Disabled(Seq<char>),
    /// The entity's stored name and its group.
    GroupIs(Seq<char>, Seq<char>),
    /// The entity belongs to no group.
    NoGroup(Seq<char>),
    /// The entity's group was set.
    GroupSet(Seq<char>, Seq<char>),
    /// The entity's group was cleared.
    GroupCleared(Seq<char>),
    /// The rendered template.
    Rendered(Seq<char>),
    /// A variable the context misses.
    RenderFailed(Seq<char>),
}

/// The shape of a response.
pub open spec fn response_view(r: Response) -> ResponseView {
    match r {
        Response::Usage(t) => ResponseView::Usage(t),
        Response::ModeratorRequired => ResponseView::ModeratorRequired,
        Response::List(names) => ResponseView::List(strings_view(names@)),
        Response::Show(n, i) => ResponseView::Show(n@, i@),
        Response::Edited => ResponseView::Edited,
        Response::CompileFailed => ResponseView::CompileFailed,
        Response::Deleted(n) => ResponseView::Deleted(n@),
        Response::Renamed(f, t) => ResponseView::Renamed(f@, t@),
        Response::RenameConflict(t) => ResponseView::RenameConflict(t@),
        Response::NotFound(n) => ResponseView::NotFound(n@),
        Response::Enabled(n) => ResponseView::Enabled(n@),
        Response::Disabled(n) => ResponseView::Disabled(n@),
        Response::GroupIs(n, g) => ResponseView::GroupIs(n@, g@),
        Response::NoGroup(n) => ResponseView::NoGroup(n@),
        Response::GroupSet(n, g) => ResponseView::GroupSet(n@, g@),
        Response::GroupCleared(n) => ResponseView::GroupCleared(n@),
        Response::Rendered(t) => ResponseView::Rendered(t@),
        Response::RenderFailed(v) => ResponseView::RenderFailed(v@),
    }
}

/// The usage line for a topic.
pub open spec fn usage_text(t: UsageTopic) -> Seq<char> {
    match t {
        UsageTopic::General => "Expected: show, list, edit, delete, rename, enable, disable, or group."@,
        UsageTopic::Show => "Expected: !command show <name>"@,
        UsageTopic::Edit => "Expected: !command edit <name> <template>"@,
        UsageTopic::Delete => "Expected: !command delete <name>"@,
        UsageTopic::Rename => "Expected: !command rename <from> <to>"@,
        UsageTopic::Enable => "Expected: !command enable <name>"@,
        UsageTopic::Disable => "Expected: !command disable <name>"@,
        UsageTopic::Group => "Expected: !command group <name> [group]"@,
        UsageTopic::ClearGroup => "Expected: !command clear-group <name>"@,
    }
}

/// The text a response reads as.
pub open spec fn text_of(r: ResponseView) -> Seq<char> {
    match r {
        ResponseView::Usage(t) => usage_text(t),
        ResponseView::ModeratorRequired => "Moderator access required."@,
        ResponseView::List(names) => if names.len() == 0 {
            "No custom commands."@
        } else {
            join_sep(names, ", "@)
        },
        ResponseView::Show(n, i) => n + " -> "@ + i,
        ResponseView::Edited => "Edited command."@,
        ResponseView::CompileFailed => "Could not compile the template."@,
        ResponseView::Deleted(n) => "Deleted command `"@ + n + "`"@,
        ResponseView::Renamed(f, t) => "Renamed command "@ + f + " -> "@ + t + "."@,
        ResponseView::RenameConflict(t) => "A command named `"@ + t + "` already exists."@,
        ResponseView::NotFound(n) => "No command named `"@ + n + "`."@,
        ResponseView::Enabled(n) => "Enabled command `"@ + n + "`"@,
        ResponseView::Disabled(n) => "Disabled command `"@ + n + "`"@,
        ResponseView::GroupIs(n, g) => "Command `"@ + n + "` belongs to group: "@ + g,
        ResponseView::NoGroup(n) => "Command `"@ + n + "` does not belong to a group"@,
        ResponseView::GroupSet(n, g) => "Set group for command `"@ + n + "` to "@ + g,
        ResponseView::GroupCleared(n) => "Removed command `"@ + n + "` from its group"@,
        ResponseView::Rendered(t) => t,
        ResponseView::RenderFailed(v) => "Missing variable `"@ + v + "` in template."@,
    }
}

/// The text of a response, as `text_of` describes it.
pub fn response_text(r: &Response) -> (t: String)
    ensures
        t@ == text_of(response_view(*r)),
{
    match r {
        Response::Usage(t) => {
            let s: &str = match t {
                UsageTopic::General => "Expected: show, list, edit, delete, rename, enable, disable, or group.",
                UsageTopic::Show => "Expected: !command show <name>",
                UsageTopic::Edit => "Expected: !command edit <name> <template>",
                UsageTopic::Delete => "Expected: !command delete <name>",
                UsageTopic::Rename => "Expected: !command rename <from> <to>",
                UsageTopic::Enable => "Expected: !command enable <name>",
                UsageTopic::Disable => "Expected: !command disable <name>",
                UsageTopic::Group => "Expected: !command group <name> [group]",
                UsageTopic::ClearGroup => "Expected: !command clear-group <name>",
            };
            String::from_str(s)
        },
        Response::ModeratorRequired => String::from_str("Moderator access required."),
        Response::List(names) => {
            if names.len() == 0 {
                String::from_str("No custom commands.")
            } else {
                join(names, ", ")
            }
        },
        Response::Show(n, i) => {
            let mut out = n.clone();
            out.append(" -> ");
            out.append(i.as_str());
            out
        },
        Response::Edited => String::from_str("Edited command."),
        Response::CompileFailed => String::from_str("Could not compile the template."),
        Response::Deleted(n) => wrap3("Deleted command `", n, "`"),
        Response::Renamed(f, t) => {
            let mut out = String::from_str("Renamed command ");
            out.append(f.as_str());
            out.append(" -> ");
            out.append(t.as_str());
            out.append(".");
            out
        },
        Response::RenameConflict(t) => wrap3("A command named `", t, "` already exists."),
        Response::NotFound(n) => wrap3("No command named `", n, "`."),
        Response::Enabled(n) => wrap3("Enabled command `", n, "`"),
        Response::Disabled(n) => wrap3("Disabled command `", n, "`"),
        Response::GroupIs(n, g) => {
            let mut out = wrap3("Command `", n, "` belongs to group: ");
            out.append(g.as_str());
            out
        },
        Response::NoGroup(n) => wrap3("Command `", n, "` does not belong to a group"),
        Response::GroupSet(n, g) => {
            let mut out = wrap3("Set group for command `", n, "` to ");
            out.append(g.as_str());
            out
        },
        Response::GroupCleared(n) => wrap3("Removed command `", n, "` from its group"),
        Response::Rendered(t) => t.clone(),
        Response::RenderFailed(v) => wrap3("Missing variable `", v, "` in template."),
    }
}

/// `before`, then `mid`, then `after`.
fn wrap3(before: &str, mid: &String, after: &str) -> (r: String)
    ensures
        r@ == before@ + mid@ + after@,
{
    let mut out = String::from_str(before);
    out.append(mid.as_str());
    out.append(after);
    out
}

/// The bindings an invocation renders against: the caller and the channel.
pub open spec fn invoke_ctx(channel: Seq<char>, caller: Seq<char>) -> Map<Seq<char>, Seq<char>> {
    Map::empty().insert("channel"@, channel).insert("caller"@, caller)
}

/// What one routed line leaves behind: the response, and the usage bump the
/// caller still owes the registry, to be performed off the response path.
#[derive(Debug)]
pub struct RouterOutcome {
    /// The response to send back.
    pub response: Response,
    /// The channel and (raw) name whose entity's counter is due a bump.
    pub increment: Option<(String, String)>,
}

/// Route one chat line against the registry, as the dispatch state machine
/// describes it: parse, gate administrative sub-commands on the moderator
/// capability — before their arguments are even looked at, so a malformed
/// administrative line still answers with the refusal — apply the
/// operation, and answer. The channel's listing comes back sorted
/// ascending, each name once. An invocation renders and schedules its
/// usage bump in the outcome instead of performing it.
pub fn route(
    cmds: &mut Commands,
    channel: &str,
    caller: &str,
    is_moderator: bool,
    message: &str,
) -> (r: RouterOutcome)
    requires
        old(cmds).wf(),
    ensures
        final(cmds).wf(),
        ({
            let pm = parse_model(message@);
            let c0 = old(cmds).cache_map();
            let s0 = old(cmds).store_map();
            let c1 = final(cmds).cache_map();
            let s1 = final(cmds).store_map();
            let rv = response_view(r.response);
            match pm {
                ParsedView::Usage(t) => c1 == c0 && s1 == s0 && r.increment is None && (
                if admin_topic(t) && !is_moderator {
                    rv == ResponseView::ModeratorRequired
                } else {
                    rv == ResponseView::Usage(t)
                }),
                ParsedView::List => c1 == c0 && s1 == s0 && r.increment is None && (match rv {
                    ResponseView::List(names) => sorted_seqs(names) && distinct_seqs(names) && (
                    forall|i: int|
                        0 <= i < names.len() ==> m_get(c0, (channel@, #[trigger] names[i])) is Some)
                        && (forall|k: (Seq<char>, Seq<char>)|
                        m_get(c0, k) is Some && k.0 == channel@ ==> exists|i: int|
                            0 <= i < names.len() && #[trigger] names[i] == k.1),
                    _ => false,
                }),
                ParsedView::Show(n) => c1 == c0 && s1 == s0 && r.increment is None && ({
                    let k = key_view(channel@, n);
                    match m_get_any(c0, k) {
                        Some(e) => rv == ResponseView::Show(k.1, display_of(e)),
                        None => rv == ResponseView::NotFound(n),
                    }
                }),
                ParsedView::Edit(n, text) => r.increment is None && (if !is_moderator {
                    c1 == c0 && s1 == s0 && rv == ResponseView::ModeratorRequired
                } else {
                    match tpl_parse(text) {
                        None => c1 == c0 && s1 == s0 && rv == ResponseView::CompileFailed,
                        Some(segs) => {
                            let k = key_view(channel@, n);
                            s1 == m_edit_store(s0, k, text) && c1 == m_edit_cache(
                                c0,
                                s0,
                                k,
                                text,
                                segs,
                            ) && rv == ResponseView::Edited
                        },
                    }
                }),
                ParsedView::Delete(n) => r.increment is None && (if !is_moderator {
                    c1 == c0 && s1 == s0 && rv == ResponseView::ModeratorRequired
                } else {
                    let k = key_view(channel@, n);
                    if s0.contains_key(k) {
                        s1 == s0.remove(k) && c1 == c0.remove(k) && rv == ResponseView::Deleted(n)
                    } else {
                        c1 == c0 && s1 == s0 && rv == ResponseView::NotFound(n)
                    }
                }),
                ParsedView::Rename(f, t) => r.increment is None && (if !is_moderator {
                    c1 == c0 && s1 == s0 && rv == ResponseView::ModeratorRequired
                } else {
                    let kf = key_view(channel@, f);
                    let kt = key_view(channel@, t);
                    if !s0.contains_key(kf) {
                        c1 == c0 && s1 == s0 && rv == ResponseView::NotFound(f)
                    } else if s0.contains_key(kt) {
                        c1 == c0 && s1 == s0 && rv == ResponseView::RenameConflict(t)
                    } else {
                        s1 == s0.remove(kf).insert(kt, s0[kf]) && c1 == (if c0.contains_key(kf) {
                            c0.remove(kf).insert(kt, c0[kf])
                        } else {
                            c0
                        }) && rv == ResponseView::Renamed(f, t)
                    }
                }),
                ParsedView::Enable(n) => r.increment is None && (if !is_moderator {
                    c1 == c0 && s1 == s0 && rv == ResponseView::ModeratorRequired
                } else {
                    let k = key_view(channel@, n);
                    if s0.contains_key(k) {
                        s1 == s0.insert(k, RowModel { disabled: false, ..s0[k] }) && c1 == (
                        if c0.contains_key(k) {
                            c0.insert(k, EntityModel { disabled: false, ..c0[k] })
                        } else {
                            c0
                        }) && rv == ResponseView::Enabled(n)
                    } else {
                        c1 == c0 && s1 == s0 && rv == ResponseView::NotFound(n)
                    }
                }),
                ParsedView::Disable(n) => r.increment is None && (if !is_moderator {
                    c1 == c0 && s1 == s0 && rv == ResponseView::ModeratorRequired
                } else {
                    let k = key_view(channel@, n);
                    if s0.contains_key(k) {
                        s1 == s0.insert(k, RowModel { disabled: true, ..s0[k] }) && c1 == (
                        if c0.contains_key(k) {
                            c0.insert(k, EntityModel { disabled: true, ..c0[k] })
                        } else {
                            c0
                        }) && rv == ResponseView::Disabled(n)
                    } else {
                        c1 == c0 && s1 == s0 && rv == ResponseView::NotFound(n)
                    }
                }),
                ParsedView::Group(n, gopt) => r.increment is None && (if !is_moderator {
                    c1 == c0 && s1 == s0 && rv == ResponseView::ModeratorRequired
                } else {
                    let k = key_view(channel@, n);
                    match gopt {
                        None => c1 == c0 && s1 == s0 && (match m_get(c0, k) {
                            Some(e) => match e.group {
                                Some(g) => rv == ResponseView::GroupIs(k.1, g),
                                None => rv == ResponseView::NoGroup(k.1),
                            },
                            None => rv == ResponseView::NotFound(n),
                        }),
                        Some(g) => if s0.contains_key(k) {
                            s1 == s0.insert(k, RowModel { group: Some(g), ..s0[k] }) && c1 == (
                            if c0.contains_key(k) {
                                c0.insert(k, EntityModel { group: Some(g), ..c0[k] })
                            } else {
                                c0
                            }) && rv == ResponseView::GroupSet(n, g)
                        } else {
                            c1 == c0 && s1 == s0 && rv == ResponseView::NotFound(n)
                        },
                    }
                }),
                ParsedView::ClearGroup(n) => r.increment is None && (if !is_moderator {
                    c1 == c0 && s1 == s0 && rv == ResponseView::ModeratorRequired
                } else {
                    let k = key_view(channel@, n);
                    if s0.contains_key(k) {
                        s1 == s0.insert(k, RowModel { group: None, ..s0[k] }) && c1 == (
                        if c0.contains_key(k) {
                            c0.insert(k, EntityModel { group: None, ..c0[k] })
                        } else {
                            c0
                        }) && rv == ResponseView::GroupCleared(n)
                    } else {
                        c1 == c0 && s1 == s0 && rv == ResponseView::NotFound(n)
                    }
                }),
                ParsedView::Invoke(n) => c1 == c0 && s1 == s0 && ({
                    let k = key_view(channel@, n);
                    match m_get(c0, k) {
                        None => rv == ResponseView::NotFound(n) && r.increment is None,
                        Some(e) => match rend(e.segs, invoke_ctx(channel@, caller@)) {
                            Ok(t) => rv == ResponseView::Rendered(t) && (r.increment matches Some(
                                p,
                            ) && p.0@ == channel@ && p.1@ == n),
                            Err(v) => rv == ResponseView::RenderFailed(v) && r.increment is None,
                        },
                    }
                }),
            }
        }),
{
    let parsed = parse(message);
    match parsed {
        Parsed::Usage(t) => {
            let response = if is_admin_topic(t) && !is_moderator {
                Response::ModeratorRequired
            } else {
                Response::Usage(t)
            };
            RouterOutcome { response, increment: None }
        },
        Parsed::List => {
            let items = cmds.list(channel);
            let len = items.len();
            let mut names: Vec<String> = Vec::new();
            let mut i: usize = 0;
            while i < len
                invariant
                    0 <= i <= len == items@.len(),
                    names@.len() == i,
                    forall|j: int| 0 <= j < i ==> (#[trigger] names@[j])@ == items@[j].key@.1,
                decreases len - i,
            {
                names.push(String::from_str(items[i].key.name()));
                i = i + 1;
            }
            let ghost nv = strings_view(names@);
            proof {
                let c0 = old(cmds).cache_map();
                assert forall|j: int| 0 <= j < nv.len() implies m_get(
                    c0,
                    (channel@, #[trigger] nv[j]),
                ) is Some by {
                    assert(items@[j].key@ == (channel@, nv[j]));
                }
                assert forall|k: (Seq<char>, Seq<char>)|
                    m_get(c0, k) is Some && k.0 == channel@ implies exists|j: int|
                    0 <= j < nv.len() && #[trigger] nv[j] == k.1 by {
                    let j = choose|j: int|
                        0 <= j < items@.len() && (#[trigger] items@[j]).key@ == k;
                    assert(nv[j] == k.1);
                }
                assert forall|a: int, b: int| 0 <= a < b < nv.len() implies (#[trigger] nv[a]) != (
                #[trigger] nv[b]) by {
                    if nv[a] == nv[b] {
                        assert(items@[a].key@ == (channel@, nv[a]));
                        assert(items@[b].key@ == (channel@, nv[b]));
                    }
                }
            }
            let sorted = sort_names(names);
            proof {
                let sv = strings_view(sorted@);
                let c0 = old(cmds).cache_map();
                assert forall|j: int| 0 <= j < sv.len() implies m_get(
                    c0,
                    (channel@, #[trigger] sv[j]),
                ) is Some by {
                    assert(sv.contains(sv[j]));
                    assert(nv.contains(sv[j]));
                    let j0 = choose|j0: int| 0 <= j0 < nv.len() && (#[trigger] nv[j0]) == sv[j];
                    assert(m_get(c0, (channel@, nv[j0])) is Some);
                }
                assert forall|k: (Seq<char>, Seq<char>)|
                    m_get(c0, k) is Some && k.0 == channel@ implies exists|j: int|
                    0 <= j < sv.len() && #[trigger] sv[j] == k.1 by {
                    let j0 = choose|j0: int| 0 <= j0 < nv.len() && (#[trigger] nv[j0]) == k.1;
                    assert(nv.contains(k.1));
                    assert(sv.contains(k.1));
                    let j = choose|j: int| 0 <= j < sv.len() && (#[trigger] sv[j]) == k.1;
                }
            }
            RouterOutcome { response: Response::List(sorted), increment: None }
        },
        Parsed::Show(n) => {
            let response = match cmds.get_any(channel, n.as_str()) {
                Some(c) => Response::Show(String::from_str(c.key.name()), c.display_string()),
                None => Response::NotFound(n),
            };
            RouterOutcome { response, increment: None }
        },
        Parsed::Edit(n, text) => {
            if !is_moderator {
                return RouterOutcome { response: Response::ModeratorRequired, increment: None };
            }
            match Template::compile(text.as_str()) {
                Err(_) => RouterOutcome { response: Response::CompileFailed, increment: None },
                Ok(template) => {
                    cmds.edit(channel, n.as_str(), template);
                    RouterOutcome { response: Response::Edited, increment: None }
                },
            }
        },
        Parsed::Delete(n) => {
            if !is_moderator {
                return RouterOutcome { response: Response::ModeratorRequired, increment: None };
            }
            let response = if cmds.delete(channel, n.as_str()) {
                Response::Deleted(n)
            } else {
                Response::NotFound(n)
            };
            RouterOutcome { response, increment: None }
        },
        Parsed::Rename(f, t) => {
            if !is_moderator {
                return RouterOutcome { response: Response::ModeratorRequired, increment: None };
            }
            let response = match cmds.rename(channel, f.as_str(), t.as_str()) {
                Ok(_) => Response::Renamed(f, t),
                Err(RenameError::Conflict) => Response::RenameConflict(t),
                Err(RenameError::Missing) => Response::NotFound(f),
            };
            RouterOutcome { response, increment: None }
        },
        Parsed::Enable(n) => {
            if !is_moderator {
                return RouterOutcome { response: Response::ModeratorRequired, increment: None };
            }
            let response = if cmds.enable(channel, n.as_str()) {
                Response::Enabled(n)
            } else {
                Response::NotFound(n)
            };
            RouterOutcome { response, increment: None }
        },
        Parsed::Disable(n) => {
            if !is_moderator {
                return RouterOutcome { response: Response::ModeratorRequired, increment: None };
            }
            let response = if cmds.disable(channel, n.as_str()) {
                Response::Disabled(n)
            } else {
                Response::NotFound(n)
            };
            RouterOutcome { response, increment: None }
        },
        Parsed::Group(n, None) => {
            if !is_moderator {
                return RouterOutcome { response: Response::ModeratorRequired, increment: None };
            }
            let response = match cmds.get(channel, n.as_str()) {
                Some(c) => match &c.group {
                    Some(g) => Response::GroupIs(String::from_str(c.key.name()), g.clone()),
                    None => Response::NoGroup(String::from_str(c.key.name())),
                },
                None => Response::NotFound(n),
            };
            RouterOutcome { response, increment: None }
        },
        Parsed::Group(n, Some(g)) => {
            if !is_moderator {
                return RouterOutcome { response: Response::ModeratorRequired, increment: None };
            }
            let response = if cmds.edit_group(channel, n.as_str(), Some(g.clone())) {
                Response::GroupSet(n, g)
            } else {
                Response::NotFound(n)
            };
            RouterOutcome { response, increment: None }
        },
        Parsed::ClearGroup(n) => {
            if !is_moderator {
                return RouterOutcome { response: Response::ModeratorRequired, increment: None };
            }
            let response = if cmds.edit_group(channel, n.as_str(), None) {
                Response::GroupCleared(n)
            } else {
                Response::NotFound(n)
            };
            RouterOutcome { response, increment: None }
        },
        Parsed::Invoke(n) => {
            match cmds.get(channel, n.as_str()) {
                None => RouterOutcome { response: Response::NotFound(n), increment: None },
                Some(c) => {
                    let mut ctx: Vec<(String, String)> = Vec::new();
                    ctx.push((String::from_str("caller"), String::from_str(caller)));
                    ctx.push((String::from_str("channel"), String::from_str(channel)));
                    proof {
                        let cv = ctx@;
                        let cv1 = cv.drop_first();
                        assert(cv1.drop_first() =~= Seq::<(String, String)>::empty());
                        assert(pairs_map(cv1.drop_first()) == Map::<Seq<char>, Seq<char>>::empty());
                        assert(cv1[0] == cv[1]);
                        assert(pairs_map(cv1) == Map::<Seq<char>, Seq<char>>::empty().insert(
                            "channel"@,
                            channel@,
                        ));
                        assert(pairs_map(cv) == pairs_map(cv1).insert("caller"@, caller@));
                        assert(pairs_map(cv) =~= invoke_ctx(channel@, caller@));
                    }
                    match c.render(&ctx) {
                        Ok(text) => RouterOutcome {
                            response: Response::Rendered(text),
                            increment: Some((String::from_str(channel), n)),
                        },
                        Err(e) => RouterOutcome {
                            response: Response::RenderFailed(e.var),
                            increment: None,
                        },
                    }
                },
            }
        },
    }
}

} // verus!
