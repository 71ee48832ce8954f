//! The two hook entries that `docli init` installs for an agent: rendering them, merging them
//! into a configuration that a person wrote, and taking them out again.
//!
//! Both agents take one shape: `hooks.<Event>` is an array of matcher objects, each with an array
//! of handlers. A merge is a splice into the text, never a rewrite, and which array element is
//! ours is told by equality with the commands that are rendered here.

use vstd::prelude::*;

use crate::agents::first_brace;
use crate::agents::led_item;
use crate::agents::nonblank;
use crate::agents::lemma_line_ended;
use crate::agents::lemma_trimmed_ends;
use crate::agents::nonblank_of;
use crate::agents::parsed_opt;
use crate::agents::Vendor;
use crate::json::as_array;
use crate::json::as_object;
use crate::json::as_text;
use crate::json::closes_object;
use crate::json::elements_of;
use crate::json::find_member;
use crate::json::is_frame;
use crate::json::is_json_blank;
use crate::json::lays_out;
use crate::json::lemma_elements_view;
use crate::json::lemma_members_view;
use crate::json::lemma_plain_deeper;
use crate::json::lookup;
use crate::json::member;
use crate::json::member_opt;
use crate::json::members_of;
use crate::json::opt_json;
use crate::json::opens_object;
use crate::json::parse_json;
use crate::json::parsed_json;
use crate::json::plain;
use crate::json::pretty_json;
use crate::json::print_json;
use crate::json::print_json_pretty;
use crate::json::printed_json;
use crate::json::Json;
use crate::json::JsonVal;
use crate::jsontext::array_element_spans;
use crate::jsontext::close_of;
use crate::jsontext::drop_element;
use crate::jsontext::ensure_trailing_newline;
use crate::jsontext::newline_ended;
use crate::jsontext::object_of_key;
use crate::jsontext::spans_from;
use crate::jsontext::spans_of;
use crate::jsontext::splice;
use crate::jsontext::splice_of;
use crate::jsontext::top_level_value_brace;
use crate::jsontext::value_of_key;
use crate::jsontext::value_of_key_in_object;
use crate::jsontext::without_element;
use crate::report::notices;
use crate::report::Notice;
use crate::report::NoticeVal;
use crate::spared::another;
use crate::spared::arrays_stay;
use crate::spared::but_for_event;
use crate::spared::found_in;
use crate::spared::is_braced;
use crate::spared::lemma_block_spares;
use crate::spared::lemma_cut_spares;
use crate::spared::lemma_event_names;
use crate::spared::left_under;
use crate::spared::lemma_event_spares;
use crate::spared::lemma_left_under;
use crate::spared::lemma_settled_found;
use crate::spared::lemma_splice_spares;
use crate::spared::lemma_still_found;
use crate::spared::not_ours;
use crate::spared::spared;
use crate::text::cat2;
use crate::text::cat3;
use crate::text::cat4;
use crate::text::cat5;
use crate::text::chars_of;
use crate::text::debug_of;
use crate::text::debug_text;
use crate::text::find_sub;
use crate::text::is_white;
use crate::text::lemma_first_is_found;
use crate::text::occurs_at;
use crate::text::opt_ref;
use crate::text::opt_str;
use crate::text::replace_char;
use crate::text::replace_char_of;
use crate::text::same;
use crate::text::strs;
use crate::text::text_lt;
use crate::text::trim;
use crate::text::trim_of;
use crate::walks::lemma_close_levels;
use crate::walks::levels;
use crate::walks::located;
use crate::walks::nests_within;

verus! {

/// Which agent a hook belongs to.
#[derive(Clone, Copy, Debug)]
pub enum HookAgent {
    ClaudeCode(Vendor),
    Codex,
}

/// The events that a hook is installed for, in the order in which they are written.
#[derive(Clone, Copy, PartialEq, Eq, Structural, Debug)]
pub enum Event {
    PreToolUse,
    SessionStart,
}

pub open spec fn event_name(e: Event) -> Seq<char> {
    match e {
        Event::PreToolUse => "PreToolUse"@,
        Event::SessionStart => "SessionStart"@,
    }
}

impl Event {
    pub fn name(self) -> (r: &'static str)
        ensures
            r@ == event_name(self),
    {
        match self {
            Event::PreToolUse => "PreToolUse",
            Event::SessionStart => "SessionStart",
        }
    }
}

pub open spec fn key_of(agent: HookAgent) -> Seq<char> {
    match agent {
        HookAgent::ClaudeCode(v) => v.key@,
        HookAgent::Codex => "codex"@,
    }
}

pub open spec fn display_of(agent: HookAgent) -> Seq<char> {
    match agent {
        HookAgent::ClaudeCode(v) => v.name@,
        HookAgent::Codex => "Codex CLI"@,
    }
}

pub open spec fn path_of(agent: HookAgent) -> Seq<char> {
    match agent {
        HookAgent::ClaudeCode(v) => v.settings@,
        HookAgent::Codex => ".codex/hooks.json"@,
    }
}

/// The matcher that names the agent's file-editing tools and nothing else.
pub open spec fn edit_matcher(agent: HookAgent) -> Seq<char> {
    match agent {
        HookAgent::ClaudeCode(_) => "Write|Edit|MultiEdit|NotebookEdit"@,
        HookAgent::Codex => "apply_patch|Edit|Write"@,
    }
}

/// The agent that a text names.
pub open spec fn agent_named(vendor: Vendor, s: Seq<char>) -> Option<HookAgent> {
    if trim_of(s) == vendor.key@ {
        Some(HookAgent::ClaudeCode(vendor))
    } else if trim_of(s) == "codex"@ {
        Some(HookAgent::Codex)
    } else {
        None
    }
}

impl HookAgent {
    /// The agent that a text names, or what is to be said of a text that names none.
    pub fn parse(vendor: Vendor, s: &str) -> (r: Result<HookAgent, String>)
        ensures
            match r {
                Ok(a) => agent_named(vendor, s@) == Some(a),
                Err(m) => agent_named(vendor, s@) is None && m@ == "unknown agent "@ + debug_text(
                    trim_of(s@),
                ) + " - use `"@ + vendor.key@ + "` or `codex`"@,
            },
    {
        let t = trim(s);
        if same(t.as_str(), vendor.key) {
            return Ok(HookAgent::ClaudeCode(vendor));
        }
        if same(t.as_str(), "codex") {
            return Ok(HookAgent::Codex);
        }
        let d = debug_of(t.as_str());
        Err(cat5("unknown agent ", d.as_str(), " - use `", vendor.key, "` or `codex`"))
    }

    pub fn key(self) -> (r: &'static str)
        ensures
            r@ == key_of(self),
    {
        match self {
            HookAgent::ClaudeCode(v) => v.key,
            HookAgent::Codex => "codex",
        }
    }

    pub fn display(self) -> (r: &'static str)
        ensures
            r@ == display_of(self),
    {
        match self {
            HookAgent::ClaudeCode(v) => v.name,
            HookAgent::Codex => "Codex CLI",
        }
    }

    /// The project file in which the agent's hooks live.
    pub fn config_path(self) -> (r: &'static str)
        ensures
            r@ == path_of(self),
    {
        match self {
            HookAgent::ClaudeCode(v) => v.settings,
            HookAgent::Codex => ".codex/hooks.json",
        }
    }

    fn pre_tool_use_matcher(self) -> (r: &'static str)
        ensures
            r@ == edit_matcher(self),
    {
        match self {
            HookAgent::ClaudeCode(_) => "Write|Edit|MultiEdit|NotebookEdit",
            HookAgent::Codex => "apply_patch|Edit|Write",
        }
    }

    pub fn all(vendor: Vendor) -> (r: [HookAgent; 2])
        ensures
            r@ == seq![HookAgent::ClaudeCode(vendor), HookAgent::Codex],
    {
        [HookAgent::ClaudeCode(vendor), HookAgent::Codex]
    }
}

/// What a hook runs.
pub open spec fn inner_of(agent: HookAgent, e: Event) -> Seq<char> {
    match e {
        Event::PreToolUse => "docli guard --agent "@ + key_of(agent) + " --tool-input -"@,
        Event::SessionStart => "docli sync --check --agent "@ + key_of(agent),
    }
}

/// The command, guarded so that nothing runs where `docli` is not installed.
pub open spec fn command_of(agent: HookAgent, e: Event) -> Seq<char> {
    "if command -v docli >/dev/null 2>&1; then "@ + inner_of(agent, e) + "; fi"@
}

/// The command as `cmd.exe` takes it.
pub open spec fn windows_of(agent: HookAgent, e: Event) -> Seq<char> {
    "where docli >nul 2>nul && "@ + inner_of(agent, e) + " || exit /b 0"@
}

pub fn inner_command(agent: HookAgent, e: Event) -> (r: String)
    ensures
        r@ == inner_of(agent, e),
{
    match e {
        Event::PreToolUse => cat3("docli guard --agent ", agent.key(), " --tool-input -"),
        Event::SessionStart => cat2("docli sync --check --agent ", agent.key()),
    }
}

/// The command of a hook. It is the same on every platform, since the file that holds it is
/// shared between platforms.
pub fn command_for(agent: HookAgent, e: Event) -> (r: String)
    ensures
        r@ == command_of(agent, e),
{
    let inner = inner_command(agent, e);
    cat3("if command -v docli >/dev/null 2>&1; then ", inner.as_str(), "; fi")
}

pub fn command_windows_for(agent: HookAgent, e: Event) -> (r: String)
    ensures
        r@ == windows_of(agent, e),
{
    let inner = inner_command(agent, e);
    cat3("where docli >nul 2>nul && ", inner.as_str(), " || exit /b 0")
}

pub open spec fn matcher_of(agent: HookAgent, e: Event) -> Seq<char> {
    match e {
        Event::PreToolUse => edit_matcher(agent),
        Event::SessionStart => "startup|resume"@,
    }
}

/// The members of our handler. One agent has a field for the other platform's command, the other
/// a field that names the shell.
pub open spec fn handler_of(agent: HookAgent, e: Event) -> Seq<(Seq<char>, JsonVal)> {
    seq![
        ("command"@, JsonVal::Text(command_of(agent, e))),
        match agent {
            HookAgent::Codex => ("commandWindows"@, JsonVal::Text(windows_of(agent, e))),
            HookAgent::ClaudeCode(_) => ("shell"@, JsonVal::Text("bash"@)),
        },
        ("timeout"@, JsonVal::Uint(10)),
        ("type"@, JsonVal::Text("command"@)),
    ]
}

/// The matcher object that is installed for an event.
pub open spec fn entry_of(agent: HookAgent, e: Event) -> JsonVal {
    JsonVal::Object(
        seq![
            ("hooks"@, JsonVal::Array(seq![JsonVal::Object(handler_of(agent, e))])),
            ("matcher"@, JsonVal::Text(matcher_of(agent, e))),
        ],
    )
}

fn text_member(key: &str, value: &str) -> (r: (String, Json))
    ensures
        r.0@ == key@,
        r.1.view() == JsonVal::Text(value@),
{
    (key.to_owned(), Json::Text(value.to_owned()))
}

fn handler_for(agent: HookAgent, e: Event) -> (r: Vec<(String, Json)>)
    ensures
        members_of(r@) == handler_of(agent, e),
{
    let mut m: Vec<(String, Json)> = Vec::new();
    let command = command_for(agent, e);
    m.push(text_member("command", command.as_str()));
    match agent {
        HookAgent::Codex => {
            let windows = command_windows_for(agent, e);
            m.push(text_member("commandWindows", windows.as_str()));
        },
        HookAgent::ClaudeCode(_) => {
            m.push(text_member("shell", "bash"));
        },
    }
    m.push(("timeout".to_owned(), Json::Uint(10)));
    m.push(text_member("type", "command"));
    assert(members_of(m@) =~= handler_of(agent, e));
    m
}

fn matcher_for(agent: HookAgent, e: Event) -> (r: &'static str)
    ensures
        r@ == matcher_of(agent, e),
{
    match e {
        Event::PreToolUse => agent.pre_tool_use_matcher(),
        Event::SessionStart => "startup|resume",
    }
}

/// The matcher object that is installed for an event.
pub fn entry_for(agent: HookAgent, e: Event) -> (r: Json)
    ensures
        r.view() == entry_of(agent, e),
{
    broadcast use {lemma_members_view, lemma_elements_view};

    let mut handlers: Vec<Json> = Vec::new();
    handlers.push(Json::Object(handler_for(agent, e)));
    assert(elements_of(handlers@) =~= seq![JsonVal::Object(handler_of(agent, e))]);
    let mut m: Vec<(String, Json)> = Vec::new();
    m.push(("hooks".to_owned(), Json::Array(handlers)));
    m.push(text_member("matcher", matcher_for(agent, e)));
    assert(members_of(m@) =~= entry_of(agent, e)->Object_0);
    Json::Object(m)
}

/// A command that was rendered for this agent and event: bare, guarded, or as `cmd.exe` takes it.
pub open spec fn is_our_command(agent: HookAgent, e: Event, c: Seq<char>) -> bool {
    c == inner_of(agent, e) || c == command_of(agent, e) || c == windows_of(agent, e)
}

/// An array element that is ours: one handler, and that runs a command that was rendered for
/// this agent and event. An element with a second handler is somebody's.
pub open spec fn ours(v: JsonVal, agent: HookAgent, e: Event) -> bool {
    match as_array(member(v, "hooks"@)) {
        Some(h) => h.len() == 1 && match as_text(member(h[0], "command"@)) {
            Some(c) => is_our_command(agent, e, c),
            None => false,
        },
        None => false,
    }
}

/// Is this array element ours?
pub fn is_ours(v: &Json, agent: HookAgent, e: Event) -> (r: bool)
    ensures
        r == ours(v.view(), agent, e),
{
    broadcast use lemma_elements_view;

    match v.get("hooks") {
        Some(Json::Array(h)) => {
            if h.len() != 1 {
                return false;
            }
            assert(elements_of(h@)[0] == h@[0].view());
            match h[0].get("command") {
                Some(Json::Text(c)) => {
                    let a = inner_command(agent, e);
                    let b = command_for(agent, e);
                    let w = command_windows_for(agent, e);
                    same(c.as_str(), a.as_str()) || same(c.as_str(), b.as_str()) || same(
                        c.as_str(),
                        w.as_str(),
                    )
                },
                _ => false,
            }
        },
        _ => false,
    }
}

/// Two handlers that do the same, for all that is known: the same fields with the same values,
/// but for the timeout.
pub open spec fn vouched(
    got: Seq<(Seq<char>, JsonVal)>,
    want: Seq<(Seq<char>, JsonVal)>,
) -> bool {
    &&& forall|i: int|
        0 <= i < got.len() ==> (#[trigger] got[i]).0 == "timeout"@ || lookup(want, got[i].0) is Some
    &&& forall|j: int|
        0 <= j < want.len() ==> (#[trigger] want[j]).0 == "timeout"@ || lookup(got, want[j].0)
            == Some(want[j].1)
}

/// An element that would fire where ours does, and run our command.
pub open spec fn effective(v: JsonVal, agent: HookAgent, e: Event) -> bool {
    &&& member(v, "matcher"@) == Some(JsonVal::Text(matcher_of(agent, e)))
    &&& match as_array(member(v, "hooks"@)) {
        Some(h) => h.len() > 0 && match h[0] {
            JsonVal::Object(got) => vouched(got, handler_of(agent, e)),
            _ => false,
        },
        None => false,
    }
}

fn fields_vouched(got: &Vec<(String, Json)>, want: &Vec<(String, Json)>) -> (r: bool)
    ensures
        r == vouched(members_of(got@), members_of(want@)),
{
    let ghost g = members_of(got@);
    let ghost w = members_of(want@);
    for i in 0..got.len()
        invariant
            g == members_of(got@),
            w == members_of(want@),
            forall|k: int|
                0 <= k < i ==> (#[trigger] g[k]).0 == "timeout"@ || lookup(w, g[k].0) is Some,
    {
        assert(g[i as int].0 == got@[i as int].0@);
        if !same(got[i].0.as_str(), "timeout") && find_member(want, got[i].0.as_str()).is_none() {
            return false;
        }
    }
    for j in 0..want.len()
        invariant
            g == members_of(got@),
            w == members_of(want@),
            forall|k: int|
                0 <= k < j ==> (#[trigger] w[k]).0 == "timeout"@ || lookup(g, w[k].0) == Some(w[k].1),
    {
        assert(w[j as int] == (want@[j as int].0@, want@[j as int].1.view()));
        if !same(want[j].0.as_str(), "timeout") {
            let there: bool = match find_member(got, want[j].0.as_str()) {
                Some(x) => x.equals(&want[j].1),
                None => false,
            };
            if !there {
                return false;
            }
        }
    }
    true
}

/// Would this element fire where ours does, and run our command?
pub fn effectively_ours(v: &Json, agent: HookAgent, e: Event) -> (r: bool)
    ensures
        r == effective(v.view(), agent, e),
{
    broadcast use {lemma_members_view, lemma_elements_view};

    let fires: bool = match v.get("matcher") {
        Some(Json::Text(m)) => same(m.as_str(), matcher_for(agent, e)),
        _ => false,
    };
    if !fires {
        return false;
    }
    match v.get("hooks") {
        Some(Json::Array(h)) => {
            if h.len() == 0 {
                return false;
            }
            assert(elements_of(h@)[0] == h@[0].view());
            match &h[0] {
                Json::Object(got) => {
                    let want = handler_for(agent, e);
                    fields_vouched(got, &want)
                },
                _ => false,
            }
        },
        _ => false,
    }
}

/// Both events with the entry of each.
pub open spec fn block_of(agent: HookAgent) -> JsonVal {
    JsonVal::Object(
        seq![
            ("PreToolUse"@, JsonVal::Array(seq![entry_of(agent, Event::PreToolUse)])),
            ("SessionStart"@, JsonVal::Array(seq![entry_of(agent, Event::SessionStart)])),
        ],
    )
}

/// A configuration that holds nothing but our entries.
pub open spec fn document_of(agent: HookAgent) -> JsonVal {
    JsonVal::Object(seq![("hooks"@, block_of(agent))])
}

fn entries_for(agent: HookAgent, e: Event) -> (r: Json)
    ensures
        r.view() == JsonVal::Array(seq![entry_of(agent, e)]),
{
    broadcast use lemma_elements_view;

    let mut v: Vec<Json> = Vec::new();
    v.push(entry_for(agent, e));
    assert(elements_of(v@) =~= seq![entry_of(agent, e)]);
    Json::Array(v)
}

fn block_for(agent: HookAgent) -> (r: Json)
    ensures
        r.view() == block_of(agent),
{
    broadcast use lemma_members_view;

    let mut m: Vec<(String, Json)> = Vec::new();
    m.push(("PreToolUse".to_owned(), entries_for(agent, Event::PreToolUse)));
    m.push(("SessionStart".to_owned(), entries_for(agent, Event::SessionStart)));
    assert(members_of(m@) =~= block_of(agent)->Object_0);
    Json::Object(m)
}

/// A configuration that holds nothing but our entries.
pub fn document_for(agent: HookAgent) -> (r: Json)
    ensures
        r.view() == document_of(agent),
{
    broadcast use lemma_members_view;

    let mut m: Vec<(String, Json)> = Vec::new();
    m.push(("hooks".to_owned(), block_for(agent)));
    assert(members_of(m@) =~= document_of(agent)->Object_0);
    Json::Object(m)
}

/// One step of an edit.
#[derive(Debug)]
pub enum Edit {
    /// The text is this now.
    Edited(String),
    /// There is nothing to do.
    Settled,
    /// Nothing can be done safely, for this reason.
    Refused(String),
}

/// What an [`Edit`] says.
pub enum EditVal {
    Edited(Seq<char>),
    Settled,
    Refused(Seq<char>),
}

impl Edit {
    pub open spec fn view(&self) -> EditVal {
        match self {
            Edit::Edited(s) => EditVal::Edited(s@),
            Edit::Settled => EditVal::Settled,
            Edit::Refused(s) => EditVal::Refused(s@),
        }
    }
}

/// Lay the whole block into a text without a `hooks` member, right behind its first brace.
/// `pretty` is the block as it is printed.
pub open spec fn block_laid(text: Seq<char>, root: Option<JsonVal>, pretty: Seq<char>) -> EditVal {
    match root {
        None => EditVal::Refused("does not parse as strict JSON (it may contain comments)"@),
        Some(JsonVal::Object(members)) => if lookup(members, "hooks"@) is Some {
            EditVal::Settled
        } else {
            match find_sub(text, seq!['{']) {
                None => EditVal::Refused("no root object"@),
                Some(b) => EditVal::Edited(
                    splice_of(
                        text,
                        b + 1,
                        b + 1,
                        "\n  \"hooks\": "@ + replace_char_of(pretty, '\n', "\n  "@) + if members.len()
                            == 0 {
                            ""@
                        } else {
                            ","@
                        },
                    ),
                ),
            }
        },
        Some(_) => EditVal::Refused("root is not a JSON object"@),
    }
}

/// Lay the whole block into a text without a `hooks` member, given what the text parses to.
pub fn whole_block(text: &str, root: &Option<Json>, pretty: &str) -> (r: Edit)
    ensures
        r.view() == block_laid(text@, opt_json(*root), pretty@),
{
    broadcast use lemma_members_view;

    let members: &Vec<(String, Json)> = match root {
        None => {
            return Edit::Refused(
                "does not parse as strict JSON (it may contain comments)".to_owned(),
            );
        },
        Some(Json::Object(m)) => m,
        Some(_) => {
            return Edit::Refused("root is not a JSON object".to_owned());
        },
    };
    if find_member(members, "hooks").is_some() {
        return Edit::Settled;
    }
    let v = chars_of(text);
    match first_brace(&v) {
        None => Edit::Refused("no root object".to_owned()),
        Some(b) => {
            let indented = replace_char(pretty, '\n', "\n  ");
            let tail: &str = if members.len() == 0 {
                ""
            } else {
                ","
            };
            let item = cat3("\n  \"hooks\": ", indented.as_str(), tail);
            let n: usize = v.len();
            assert(b < n);
            Edit::Edited(splice(&v, b + 1, b + 1, item.as_str()))
        },
    }
}

/// The positions of the elements that are ours, among the first `k`.
pub open spec fn our_places(entries: Seq<JsonVal>, agent: HookAgent, e: Event, k: int) -> Seq<int>
    decreases k,
{
    if k <= 0 {
        Seq::empty()
    } else if ours(entries[k - 1], agent, e) {
        our_places(entries, agent, e, k - 1).push(k - 1)
    } else {
        our_places(entries, agent, e, k - 1)
    }
}

pub open spec fn unread(e: Event) -> EditVal {
    EditVal::Refused("could not read the elements of \"hooks."@ + event_name(e) + "\""@)
}

/// Edit the array of an event so that the first of our elements is `rendered` and there is no
/// other: ours goes to the front where there is none, the last goes where there are several.
pub open spec fn array_spliced(
    text: Seq<char>,
    span: (int, int),
    entries: Seq<JsonVal>,
    agent: HookAgent,
    e: Event,
    rendered: Seq<char>,
) -> EditVal {
    match spans_from(text, span.0 + 1, span.1) {
        None => unread(e),
        Some(spans) => if spans.len() != entries.len() {
            unread(e)
        } else {
            let mine = our_places(entries, agent, e, entries.len() as int);
            if mine.len() == 0 {
                EditVal::Edited(
                    splice_of(
                        text,
                        span.0 + 1,
                        span.0 + 1,
                        led_item(rendered, entries.len() == 0),
                    ),
                )
            } else if mine.len() > 1 {
                let last = spans[mine.last()];
                EditVal::Edited(without_element(text, span.0, span.1, last.0, last.1))
            } else if entries[mine[0]] == entry_of(agent, e) {
                EditVal::Settled
            } else {
                let at = spans[mine[0]];
                EditVal::Edited(splice_of(text, at.0, at.1, rendered))
            }
        },
    }
}

pub open spec fn unlocated() -> Seq<char> {
    "its \"hooks\" object could not be located unambiguously (a duplicated key, or a backslash-escaped string at the top level - a Windows path is enough); docli will not guess which one to edit"@
}

/// Bring one event's entry into the `hooks` object.
pub open spec fn event_in_hooks(
    text: Seq<char>,
    hooks: Seq<(Seq<char>, JsonVal)>,
    agent: HookAgent,
    e: Event,
    rendered: Seq<char>,
) -> EditVal {
    let name = event_name(e);
    match object_of_key(text, "hooks"@) {
        None => EditVal::Refused(unlocated()),
        Some(open) => match lookup(hooks, name) {
            None => EditVal::Edited(
                splice_of(
                    text,
                    open + 1,
                    open + 1,
                    led_item("\""@ + name + "\": ["@ + rendered + "]"@, hooks.len() == 0),
                ),
            ),
            Some(JsonVal::Array(entries)) => match value_of_key(text, open, name) {
                None => EditVal::Refused(
                    "could not locate \"hooks."@ + name + "\" unambiguously"@,
                ),
                Some(span) => if text[span.0] != '[' {
                    EditVal::Refused("\"hooks."@ + name + "\" is not an array"@)
                } else {
                    array_spliced(text, span, entries, agent, e, rendered)
                },
            },
            Some(_) => EditVal::Refused("\"hooks."@ + name + "\" is not an array"@),
        },
    }
}

/// One step towards exactly one entry of ours for an event, given what the text parses to and
/// how the entry is printed.
pub open spec fn event_spliced(
    text: Seq<char>,
    root: Option<JsonVal>,
    agent: HookAgent,
    e: Event,
    rendered: Seq<char>,
) -> EditVal {
    match root {
        None => EditVal::Refused("does not parse as strict JSON (it may contain comments)"@),
        Some(JsonVal::Object(members)) => match lookup(members, "hooks"@) {
            None => match find_sub(text, seq!['{']) {
                None => EditVal::Refused("no root object"@),
                Some(b) => EditVal::Edited(
                    splice_of(
                        text,
                        b + 1,
                        b + 1,
                        led_item(
                            "\"hooks\": {\""@ + event_name(e) + "\": ["@ + rendered + "]}"@,
                            members.len() == 0,
                        ),
                    ),
                ),
            },
            Some(JsonVal::Object(hooks)) => event_in_hooks(text, hooks, agent, e, rendered),
            Some(_) => EditVal::Refused("\"hooks\" is not an object"@),
        },
        Some(_) => EditVal::Refused("root is not a JSON object"@),
    }
}

fn lead(item: String, alone: bool) -> (r: String)
    ensures
        r@ == led_item(item@, alone),
{
    let mut s = item;
    if !alone {
        s.push_str(", ");
    }
    s
}

fn find_ours(entries: &Vec<Json>, agent: HookAgent, e: Event) -> (r: Vec<usize>)
    ensures
        r@.len() == our_places(elements_of(entries@), agent, e, entries@.len() as int).len(),
        forall|i: int|
            0 <= i < r@.len() ==> #[trigger] r@[i] == our_places(
                elements_of(entries@),
                agent,
                e,
                entries@.len() as int,
            )[i] && r@[i] < entries@.len(),
{
    let mut out: Vec<usize> = Vec::new();
    let ghost all = elements_of(entries@);
    for k in 0..entries.len()
        invariant
            all == elements_of(entries@),
            out@.len() == our_places(all, agent, e, k as int).len(),
            forall|i: int|
                0 <= i < out@.len() ==> #[trigger] out@[i] == our_places(all, agent, e, k as int)[i]
                    && out@[i] < k,
    {
        assert(all[k as int] == entries@[k as int].view());
        if is_ours(&entries[k], agent, e) {
            out.push(k);
        }
    }
    out
}

fn cannot_read(e: Event) -> (r: Edit)
    ensures
        r.view() == unread(e),
{
    Edit::Refused(cat3("could not read the elements of \"hooks.", e.name(), "\""))
}

fn splice_array(
    v: &Vec<char>,
    span: (usize, usize),
    entries: &Vec<Json>,
    agent: HookAgent,
    e: Event,
    rendered: &str,
) -> (r: Edit)
    requires
        span.0 < span.1 <= v@.len(),
    ensures
        r.view() == array_spliced(
            v@,
            (span.0 as int, span.1 as int),
            elements_of(entries@),
            agent,
            e,
            rendered@,
        ),
{
    let spans: Vec<(usize, usize)> = match array_element_spans(v, span.0, span.1) {
        None => {
            return cannot_read(e);
        },
        Some(s) => s,
    };
    let ghost all = elements_of(entries@);
    let n: usize = entries.len();
    if spans.len() != n {
        return cannot_read(e);
    }
    let mine = find_ours(entries, agent, e);
    if mine.len() == 0 {
        let item = lead(rendered.to_owned(), n == 0);
        return Edit::Edited(splice(v, span.0 + 1, span.0 + 1, item.as_str()));
    }
    if mine.len() > 1 {
        let last: usize = mine[mine.len() - 1];
        assert(spans_of(spans@)[last as int] == (
            spans@[last as int].0 as int,
            spans@[last as int].1 as int,
        ));
        return Edit::Edited(drop_element(v, span.0, span.1, &spans, last));
    }
    let i: usize = mine[0];
    assert(all[i as int] == entries@[i as int].view());
    let desired = entry_for(agent, e);
    if entries[i].equals(&desired) {
        return Edit::Settled;
    }
    let at: (usize, usize) = spans[i];
    assert(spans_of(spans@)[i as int] == (at.0 as int, at.1 as int));
    Edit::Edited(splice(v, at.0, at.1, rendered))
}

fn splice_in_hooks(
    v: &Vec<char>,
    hooks: &Vec<(String, Json)>,
    agent: HookAgent,
    e: Event,
    rendered: &str,
) -> (r: Edit)
    ensures
        r.view() == event_in_hooks(v@, members_of(hooks@), agent, e, rendered@),
{
    broadcast use lemma_elements_view;

    let key = chars_of("hooks");
    let open: usize = match top_level_value_brace(v, &key) {
        None => {
            return Edit::Refused(
                "its \"hooks\" object could not be located unambiguously (a duplicated key, or a backslash-escaped string at the top level - a Windows path is enough); docli will not guess which one to edit".to_owned(),
            );
        },
        Some(b) => b,
    };
    let n: usize = v.len();
    assert(open < n);
    match find_member(hooks, e.name()) {
        None => {
            let item = lead(
                cat5("\"", e.name(), "\": [", rendered, "]"),
                hooks.len() == 0,
            );
            Edit::Edited(splice(v, open + 1, open + 1, item.as_str()))
        },
        Some(Json::Array(entries)) => {
            let name = chars_of(e.name());
            match value_of_key_in_object(v, open, &name) {
                None => Edit::Refused(cat3("could not locate \"hooks.", e.name(), "\" unambiguously")),
                Some(span) => {
                    if v[span.0] != '[' {
                        Edit::Refused(cat3("\"hooks.", e.name(), "\" is not an array"))
                    } else {
                        splice_array(v, span, entries, agent, e, rendered)
                    }
                },
            }
        },
        Some(_) => Edit::Refused(cat3("\"hooks.", e.name(), "\" is not an array")),
    }
}

/// Make one step towards exactly one entry of ours for an event, given what the text parses to
/// and how the entry is printed.
pub fn splice_event(
    text: &str,
    root: &Option<Json>,
    agent: HookAgent,
    e: Event,
    rendered: &str,
) -> (r: Edit)
    ensures
        r.view() == event_spliced(text@, opt_json(*root), agent, e, rendered@),
{
    broadcast use lemma_members_view;

    let members: &Vec<(String, Json)> = match root {
        None => {
            return Edit::Refused(
                "does not parse as strict JSON (it may contain comments)".to_owned(),
            );
        },
        Some(Json::Object(m)) => m,
        Some(_) => {
            return Edit::Refused("root is not a JSON object".to_owned());
        },
    };
    let v = chars_of(text);
    match find_member(members, "hooks") {
        None => match first_brace(&v) {
            None => Edit::Refused("no root object".to_owned()),
            Some(b) => {
                let item = lead(
                    cat5("\"hooks\": {\"", e.name(), "\": [", rendered, "]}"),
                    members.len() == 0,
                );
                Edit::Edited(splice(&v, b + 1, b + 1, item.as_str()))
            },
        },
        Some(Json::Object(hooks)) => splice_in_hooks(&v, hooks, agent, e, rendered),
        Some(_) => Edit::Refused("\"hooks\" is not an object".to_owned()),
    }
}

/// What a merge decided.
#[derive(Debug, PartialEq, Eq)]
pub enum HookOutcome {
    /// The whole new text of the file.
    Write(String),
    /// Our entries are exactly what would be written.
    AlreadyInstalled,
    /// The file has a shape that is not edited, for this reason; the snippet is printed instead.
    Occupied(String),
}

/// What a [`HookOutcome`] says.
pub enum HookVal {
    Write(Seq<char>),
    AlreadyInstalled,
    Occupied(Seq<char>),
}

impl HookOutcome {
    pub open spec fn view(&self) -> HookVal {
        match self {
            HookOutcome::Write(s) => HookVal::Write(s@),
            HookOutcome::AlreadyInstalled => HookVal::AlreadyInstalled,
            HookOutcome::Occupied(s) => HookVal::Occupied(s@),
        }
    }
}

/// A text under edit.
pub enum Course {
    /// The text, and whether it is another than at the start.
    On(Seq<char>, bool),
    Refused(Seq<char>),
}

/// Edit the entries of one event until nothing is left to do, in at most `n` edits.
pub open spec fn converged(
    text: Seq<char>,
    changed: bool,
    agent: HookAgent,
    e: Event,
    n: nat,
) -> Course
    decreases n,
{
    if n == 0 {
        Course::Refused("\"hooks."@ + event_name(e) + "\" did not converge after 16 edits"@)
    } else {
        match event_spliced(text, parsed_json(text), agent, e, printed_json(entry_of(agent, e))) {
            EditVal::Edited(next) => converged(next, true, agent, e, (n - 1) as nat),
            EditVal::Settled => Course::On(text, changed),
            EditVal::Refused(why) => Course::Refused(why),
        }
    }
}

/// Merge into a text that is not blank: the whole block where there is none, then event by event.
pub open spec fn merged(agent: HookAgent, text: Seq<char>) -> HookVal {
    let start = match block_laid(text, parsed_json(text), pretty_json(block_of(agent))) {
        EditVal::Edited(next) => Course::On(next, true),
        EditVal::Settled => Course::On(text, false),
        EditVal::Refused(why) => Course::Refused(why),
    };
    let first = match start {
        Course::On(t, c) => converged(t, c, agent, Event::PreToolUse, 16),
        Course::Refused(why) => Course::Refused(why),
    };
    let second = match first {
        Course::On(t, c) => converged(t, c, agent, Event::SessionStart, 16),
        Course::Refused(why) => Course::Refused(why),
    };
    match second {
        Course::On(t, c) => if c {
            HookVal::Write(newline_ended(t))
        } else {
            HookVal::AlreadyInstalled
        },
        Course::Refused(why) => HookVal::Occupied(why),
    }
}

/// The outcome of a merge into a file that may be missing.
pub open spec fn merge_val(agent: HookAgent, existing: Option<Seq<char>>) -> HookVal {
    match nonblank_of(existing) {
        None => HookVal::Write(pretty_json(document_of(agent)).push('\n')),
        Some(text) => merged(agent, text),
    }
}

/// A text under edit.
enum Pass {
    On(String, bool),
    Refused(String),
}

impl Pass {
    spec fn view(&self) -> Course {
        match self {
            Pass::On(s, c) => Course::On(s@, *c),
            Pass::Refused(w) => Course::Refused(w@),
        }
    }
}

fn converge(text: String, changed: bool, agent: HookAgent, e: Event) -> (r: Pass)
    ensures
        r.view() == converged(text@, changed, agent, e, 16),
        r.view() matches Course::On(t, _) ==> {
            &&& settled(parsed_json(t), agent, e)
            &&& found_in(t, parsed_json(t), e)
            &&& parsed_json(t.push('\n')) == parsed_json(t)
            &&& hooks_of(parsed_json(text@)) is Some ==> but_for_event(
                parsed_json(t),
                parsed_json(text@),
                agent,
                e,
            )
            &&& hooks_of(parsed_json(text@)) is Some && is_braced(text@) ==> is_braced(t) && (
            found_in(text@, parsed_json(text@), another(e)) ==> found_in(
                t,
                parsed_json(t),
                another(e),
            ))
        },
{
    let rendered = {
        let v = entry_for(agent, e);
        print_json(&v)
    };
    let ghost start = text@;
    let mut out = text;
    let mut touched: bool = changed;
    proof {
        lemma_entry_is_plain(agent, e);
        lemma_plain_deeper(entry_of(agent, e), 124, 126);
        lemma_plain_deeper(entry_of(agent, e), 124, 127);
        lemma_close_levels(rendered@, 0, 0);
    }
    for i in 0..16u8
        invariant
            rendered@ == printed_json(entry_of(agent, e)),
            nests_within(rendered@, 124),
            levels(rendered@, 0, 0, rendered@.len() as int),
            parsed_json(rendered@) == Some(entry_of(agent, e)),
            parsed_json("["@ + rendered@ + "]"@) == Some(JsonVal::Array(seq![entry_of(agent, e)])),
            rendered@.len() > 0 && rendered@[0] == '{',
            close_of(rendered@, 0, 0) == Some(rendered@.len() as int),
            start == text@,
            hooks_of(parsed_json(start)) is Some ==> hooks_of(parsed_json(out@)) is Some
                && but_for_event(parsed_json(out@), parsed_json(start), agent, e),
            hooks_of(parsed_json(start)) is Some && is_braced(start) ==> is_braced(out@) && (
            found_in(start, parsed_json(start), another(e)) ==> found_in(
                out@,
                parsed_json(out@),
                another(e),
            )),
            converged(start, changed, agent, e, 16) == converged(
                out@,
                touched,
                agent,
                e,
                (16 - i) as nat,
            ),
    {
        let root = parse_json(out.as_str());
        proof {
            lemma_settled_found(out@, parsed_json(out@), agent, e, rendered@);
            if hooks_of(parsed_json(start)) is Some {
                lemma_splice_spares(out@, parsed_json(out@), agent, e, rendered@);
                if is_braced(start) {
                    lemma_still_found(out@, parsed_json(out@), agent, e, rendered@);
                }
            }
        }
        match splice_event(out.as_str(), &root, agent, e, rendered.as_str()) {
            Edit::Edited(next) => {
                out = next;
                touched = true;
            },
            Edit::Settled => {
                return Pass::On(out, touched);
            },
            Edit::Refused(why) => {
                return Pass::Refused(why);
            },
        }
    }
    Pass::Refused(cat3("\"hooks.", e.name(), "\" did not converge after 16 edits"))
}

/// Merge our two entries into a configuration, keeping the user's text. What is written reads
/// back with exactly one entry of ours for each event, a working guard, and everything that is the
/// user's as it was; to merge again finds it installed.
pub fn merge(agent: HookAgent, existing: Option<&str>) -> (r: HookOutcome)
    ensures
        r.view() == merge_val(agent, opt_ref(existing)),
        r.view() matches HookVal::Write(t) ==> {
            &&& settled(parsed_json(t), agent, Event::PreToolUse)
            &&& settled(parsed_json(t), agent, Event::SessionStart)
            &&& gate_in(parsed_json(t), agent)
            &&& spared(parsed_json(t), parsed_opt(nonblank_of(opt_ref(existing))), agent)
            &&& merge_val(agent, Some(t)) is AlreadyInstalled
        },
{
    let text: String = match nonblank(existing) {
        None => {
            let doc = document_for(agent);
            proof {
                lemma_document_is_plain(agent);
                lemma_document_works(agent);
                lemma_document_is_ours(agent);
            }
            let mut out = print_json_pretty(&doc);
            proof {
                lemma_line_ended(out@);
                lemma_document_is_found(out@, agent);
                lemma_merged_once(out@, agent);
            }
            out.push('\n');
            return HookOutcome::Write(out);
        },
        Some(t) => t,
    };
    let root = parse_json(text.as_str());
    let pretty = {
        let v = block_for(agent);
        print_json_pretty(&v)
    };
    let ghost old = parsed_json(text@);
    proof {
        lemma_document_is_plain(agent);
        lemma_plain_deeper(block_of(agent), 126, 127);
        lemma_trimmed_ends(existing->0@);
        lemma_block_spares(text@, old, agent, pretty@);
        if old is Some && old->0 is Object {
            lemma_braced(text@);
            lemma_laid_braced(text@, old, pretty@);
        }
    }
    let start: Pass = match whole_block(text.as_str(), &root, pretty.as_str()) {
        Edit::Edited(next) => Pass::On(next, true),
        Edit::Settled => Pass::On(text, false),
        Edit::Refused(why) => Pass::Refused(why),
    };
    let ghost laid = match start.view() {
        Course::On(t, _) => parsed_json(t),
        Course::Refused(_) => None,
    };
    let first: Pass = match start {
        Pass::On(t, c) => converge(t, c, agent, Event::PreToolUse),
        Pass::Refused(why) => Pass::Refused(why),
    };
    let ghost mid = match first.view() {
        Course::On(t, _) => parsed_json(t),
        Course::Refused(_) => None,
    };
    let second: Pass = match first {
        Pass::On(t, c) => converge(t, c, agent, Event::SessionStart),
        Pass::Refused(why) => Pass::Refused(why),
    };
    match second {
        Pass::On(t, c) => {
            proof {
                lemma_both_settled(old, laid, mid, parsed_json(t@), agent);
                lemma_merged_once(t@, agent);
            }
            if c {
                let mut out = t;
                ensure_trailing_newline(&mut out);
                HookOutcome::Write(out)
            } else {
                HookOutcome::AlreadyInstalled
            }
        },
        Pass::Refused(why) => HookOutcome::Occupied(why),
    }
}

/// What a removal decided.
#[derive(Debug, PartialEq, Eq)]
pub enum RemoveOutcome {
    /// The whole new text of the file.
    Removed(String),
    NothingOfOurs,
    /// Something of ours may be there and could not be taken out safely.
    Refused,
}

/// What a [`RemoveOutcome`] says.
pub enum RemoveVal {
    Removed(Seq<char>),
    NothingOfOurs,
    Refused,
}

impl RemoveOutcome {
    pub open spec fn view(&self) -> RemoveVal {
        match self {
            RemoveOutcome::Removed(s) => RemoveVal::Removed(s@),
            RemoveOutcome::NothingOfOurs => RemoveVal::NothingOfOurs,
            RemoveOutcome::Refused => RemoveVal::Refused,
        }
    }
}

/// The `hooks` object of a configuration.
pub open spec fn hooks_of(root: Option<JsonVal>) -> Option<Seq<(Seq<char>, JsonVal)>> {
    as_object(member_opt(root, "hooks"@))
}

/// The array of an event.
pub open spec fn entries_of(hooks: Seq<(Seq<char>, JsonVal)>, e: Event) -> Option<Seq<JsonVal>> {
    as_array(lookup(hooks, event_name(e)))
}

/// Some element of the event's array is ours.
pub open spec fn has_ours(hooks: Seq<(Seq<char>, JsonVal)>, agent: HookAgent, e: Event) -> bool {
    match entries_of(hooks, e) {
        Some(entries) => our_places(entries, agent, e, entries.len() as int).len() > 0,
        None => false,
    }
}

/// One step of a removal.
pub enum CutVal {
    Dropped(Seq<char>),
    Done,
    Refused,
}

/// Take the first element of ours out of an event's array. `None` where there is none.
pub open spec fn event_cut(
    text: Seq<char>,
    hooks: Seq<(Seq<char>, JsonVal)>,
    open: int,
    agent: HookAgent,
    e: Event,
) -> Option<CutVal> {
    if !has_ours(hooks, agent, e) {
        None
    } else {
        let entries = entries_of(hooks, e)->0;
        let first = our_places(entries, agent, e, entries.len() as int)[0];
        match value_of_key(text, open, event_name(e)) {
            None => Some(CutVal::Refused),
            Some(span) => match spans_from(text, span.0 + 1, span.1) {
                None => Some(CutVal::Refused),
                Some(spans) => if spans.len() != entries.len() {
                    Some(CutVal::Refused)
                } else {
                    Some(
                        CutVal::Dropped(
                            without_element(text, span.0, span.1, spans[first].0, spans[first].1),
                        ),
                    )
                },
            },
        }
    }
}

/// Take one element of ours out of a configuration, given what it parses to.
pub open spec fn cut_once(text: Seq<char>, root: Option<JsonVal>, agent: HookAgent) -> CutVal {
    if root is None {
        CutVal::Refused
    } else {
        match hooks_of(root) {
            None => CutVal::Done,
            Some(hooks) => match object_of_key(text, "hooks"@) {
                None => CutVal::Refused,
                Some(open) => match event_cut(text, hooks, open, agent, Event::PreToolUse) {
                    Some(c) => c,
                    None => match event_cut(text, hooks, open, agent, Event::SessionStart) {
                        Some(c) => c,
                        None => CutVal::Done,
                    },
                },
            },
        }
    }
}

pub proof fn lemma_places(entries: Seq<JsonVal>, agent: HookAgent, e: Event, k: int)
    requires
        0 <= k <= entries.len(),
    ensures
        forall|i: int|
            0 <= i < our_places(entries, agent, e, k).len() ==> 0 <= (#[trigger] our_places(
                entries,
                agent,
                e,
                k,
            )[i]) < k && ours(entries[our_places(entries, agent, e, k)[i]], agent, e),
    decreases k,
{
    if k > 0 {
        lemma_places(entries, agent, e, k - 1);
        let before = our_places(entries, agent, e, k - 1);
        let after = our_places(entries, agent, e, k);
        assert forall|i: int| 0 <= i < after.len() implies 0 <= (#[trigger] after[i]) < k && ours(
            entries[after[i]],
            agent,
            e,
        ) by {
            if i < before.len() {
                assert(after[i] == before[i]);
            }
        }
    }
}

proof fn lemma_event_cut_shrinks(
    text: Seq<char>,
    hooks: Seq<(Seq<char>, JsonVal)>,
    open: int,
    agent: HookAgent,
    e: Event,
)
    ensures
        event_cut(text, hooks, open, agent, e) matches Some(CutVal::Dropped(t)) ==> t.len()
            < text.len(),
{
    if let Some(CutVal::Dropped(t)) = event_cut(text, hooks, open, agent, e) {
        let entries = entries_of(hooks, e)->0;
        let span = value_of_key(text, open, event_name(e))->0;
        let first = our_places(entries, agent, e, entries.len() as int)[0];
        crate::jsontext::lemma_value_of_key(text, open, event_name(e));
        crate::jsontext::lemma_spans(text, span.0 + 1, span.1);
        lemma_places(entries, agent, e, entries.len() as int);
        let spans = spans_from(text, span.0 + 1, span.1)->0;
        crate::jsontext::lemma_without_element(
            text,
            span.0,
            span.1,
            spans[first].0,
            spans[first].1,
        );
    }
}

/// A removal step makes the text shorter.
pub proof fn lemma_cut_shrinks(text: Seq<char>, root: Option<JsonVal>, agent: HookAgent)
    ensures
        cut_once(text, root, agent) matches CutVal::Dropped(t) ==> t.len() < text.len(),
{
    if let Some(hooks) = hooks_of(root) {
        if let Some(open) = object_of_key(text, "hooks"@) {
            lemma_event_cut_shrinks(text, hooks, open, agent, Event::PreToolUse);
            lemma_event_cut_shrinks(text, hooks, open, agent, Event::SessionStart);
        }
    }
}

/// Take out everything of ours, one element at a time.
pub open spec fn cut_all(text: Seq<char>, agent: HookAgent, removed: bool) -> RemoveVal
    decreases text.len(),
{
    match cut_once(text, parsed_json(text), agent) {
        CutVal::Refused => RemoveVal::Refused,
        CutVal::Done => if removed {
            RemoveVal::Removed(newline_ended(text))
        } else {
            RemoveVal::Refused
        },
        CutVal::Dropped(t) => {
            proof {
                lemma_cut_shrinks(text, parsed_json(text), agent);
            }
            cut_all(t, agent, true)
        },
    }
}

/// The outcome of a removal.
pub open spec fn remove_val(agent: HookAgent, text: Seq<char>) -> RemoveVal {
    match parsed_json(text) {
        Some(JsonVal::Object(members)) => match as_object(lookup(members, "hooks"@)) {
            None => RemoveVal::NothingOfOurs,
            Some(hooks) => if !has_ours(hooks, agent, Event::PreToolUse) && !has_ours(
                hooks,
                agent,
                Event::SessionStart,
            ) {
                RemoveVal::NothingOfOurs
            } else {
                cut_all(text, agent, false)
            },
        },
        _ => RemoveVal::Refused,
    }
}

/// One step of a removal.
#[derive(Debug)]
pub enum Cut {
    Dropped(String),
    Done,
    Refused,
}

impl Cut {
    pub open spec fn view(&self) -> CutVal {
        match self {
            Cut::Dropped(s) => CutVal::Dropped(s@),
            Cut::Done => CutVal::Done,
            Cut::Refused => CutVal::Refused,
        }
    }
}

fn cut_event(
    v: &Vec<char>,
    hooks: &Vec<(String, Json)>,
    open: usize,
    agent: HookAgent,
    e: Event,
) -> (r: Option<Cut>)
    requires
        open <= v@.len(),
    ensures
        (match r {
            Some(c) => Some(c.view()),
            None => None,
        }) == event_cut(v@, members_of(hooks@), open as int, agent, e),
{
    broadcast use lemma_elements_view;

    let entries: &Vec<Json> = match find_member(hooks, e.name()) {
        Some(Json::Array(a)) => a,
        _ => {
            return None;
        },
    };
    let mine = find_ours(entries, agent, e);
    if mine.len() == 0 {
        return None;
    }
    let name = chars_of(e.name());
    let span: (usize, usize) = match value_of_key_in_object(v, open, &name) {
        None => {
            return Some(Cut::Refused);
        },
        Some(s) => s,
    };
    let spans: Vec<(usize, usize)> = match array_element_spans(v, span.0, span.1) {
        None => {
            return Some(Cut::Refused);
        },
        Some(s) => s,
    };
    if spans.len() != entries.len() {
        return Some(Cut::Refused);
    }
    let first: usize = mine[0];
    assert(spans_of(spans@)[first as int] == (
        spans@[first as int].0 as int,
        spans@[first as int].1 as int,
    ));
    Some(Cut::Dropped(drop_element(v, span.0, span.1, &spans, first)))
}

/// Take one element of ours out of a configuration, given what it parses to.
pub fn remove_one(text: &str, root: &Option<Json>, agent: HookAgent) -> (r: Cut)
    ensures
        r.view() == cut_once(text@, opt_json(*root), agent),
{
    broadcast use lemma_members_view;

    let doc: &Json = match root {
        None => {
            return Cut::Refused;
        },
        Some(d) => d,
    };
    let hooks: &Vec<(String, Json)> = match doc.get("hooks") {
        Some(Json::Object(h)) => h,
        _ => {
            return Cut::Done;
        },
    };
    let v = chars_of(text);
    let key = chars_of("hooks");
    let open: usize = match top_level_value_brace(&v, &key) {
        None => {
            return Cut::Refused;
        },
        Some(b) => b,
    };
    if let Some(c) = cut_event(&v, hooks, open, agent, Event::PreToolUse) {
        return c;
    }
    match cut_event(&v, hooks, open, agent, Event::SessionStart) {
        Some(c) => c,
        None => Cut::Done,
    }
}

fn any_of_ours(hooks: &Vec<(String, Json)>, agent: HookAgent, e: Event) -> (r: bool)
    ensures
        r == has_ours(members_of(hooks@), agent, e),
{
    broadcast use lemma_elements_view;

    match find_member(hooks, e.name()) {
        Some(Json::Array(a)) => find_ours(a, agent, e).len() > 0,
        _ => false,
    }
}

proof fn lemma_cut_stays_an_object(text: Seq<char>, root: Option<JsonVal>, agent: HookAgent)
    requires
        opens_object(text),
    ensures
        cut_once(text, root, agent) matches CutVal::Dropped(t) ==> opens_object(t),
{
    if let CutVal::Dropped(t) = cut_once(text, root, agent) {
        let hooks = hooks_of(root)->0;
        let open = object_of_key(text, "hooks"@)->0;
        let e = if event_cut(text, hooks, open, agent, Event::PreToolUse) is Some {
            Event::PreToolUse
        } else {
            Event::SessionStart
        };
        let entries = entries_of(hooks, e)->0;
        let span = value_of_key(text, open, event_name(e))->0;
        let first = our_places(entries, agent, e, entries.len() as int)[0];
        crate::jsontext::lemma_value_of_key(text, open, event_name(e));
        crate::jsontext::lemma_spans(text, span.0 + 1, span.1);
        lemma_places(entries, agent, e, entries.len() as int);
        let at = spans_from(text, span.0 + 1, span.1)->0[first];
        crate::jsontext::lemma_without_element(text, span.0, span.1, at.0, at.1);
        let cut = crate::jsontext::cut_of(text, span.0, span.1, at.0, at.1);
        let i = choose|i: int|
            0 <= i < text.len() && (#[trigger] text[i]) == '{' && forall|j: int|
                0 <= j < i ==> is_json_blank(#[trigger] text[j]);
        assert(i <= span.0) by {
            if span.0 < i {
                assert(is_json_blank(text[span.0]));
            }
        }
        assert(t[i] == text[i]);
        assert forall|j: int| 0 <= j < i implies is_json_blank(#[trigger] t[j]) by {
            assert(t[j] == text[j]);
        }
    }
}

/// Take every element of ours out of a configuration and leave the rest of the text as it is. An
/// array that is left empty stays. In what is written nothing is ours, so that to remove again
/// finds nothing, and everything that is the user's is as it was.
pub fn remove(agent: HookAgent, existing: &str) -> (r: RemoveOutcome)
    ensures
        r.view() == remove_val(agent, existing@),
        r.view() matches RemoveVal::Removed(out) ==> {
            &&& none_of_ours(parsed_json(out), agent)
            &&& remove_val(agent, out) is NothingOfOurs
            &&& spared(parsed_json(out), parsed_json(existing@), agent)
            &&& left_under(parsed_json(out), parsed_json(existing@), agent, Event::PreToolUse)
            &&& left_under(parsed_json(out), parsed_json(existing@), agent, Event::SessionStart)
        },
{
    broadcast use lemma_members_view;

    let root = parse_json(existing);
    match &root {
        Some(Json::Object(members)) => match find_member(members, "hooks") {
            Some(Json::Object(hooks)) => {
                if !any_of_ours(hooks, agent, Event::PreToolUse) && !any_of_ours(
                    hooks,
                    agent,
                    Event::SessionStart,
                ) {
                    return RemoveOutcome::NothingOfOurs;
                }
            },
            _ => {
                return RemoveOutcome::NothingOfOurs;
            },
        },
        _ => {
            return RemoveOutcome::Refused;
        },
    }
    let mut out = existing.to_owned();
    let mut removed: bool = false;
    assert(remove_val(agent, existing@) == cut_all(out@, agent, removed));
    loop
        invariant
            remove_val(agent, existing@) == cut_all(out@, agent, removed),
            opens_object(out@),
            spared(parsed_json(out@), parsed_json(existing@), agent),
            arrays_stay(parsed_json(out@), parsed_json(existing@)),
        decreases out@.len(),
    {
        let now = parse_json(out.as_str());
        proof {
            lemma_cut_spares(out@, parsed_json(out@), agent);
            lemma_cut_shrinks(out@, parsed_json(out@), agent);
            lemma_cut_stays_an_object(out@, parsed_json(out@), agent);
        }
        match remove_one(out.as_str(), &now, agent) {
            Cut::Refused => {
                return RemoveOutcome::Refused;
            },
            Cut::Done => {
                if !removed {
                    return RemoveOutcome::Refused;
                }
                proof {
                    let was = parsed_json(existing@);
                    lemma_left_under(parsed_json(out@), was, agent, Event::PreToolUse);
                    lemma_left_under(parsed_json(out@), was, agent, Event::SessionStart);
                }
                ensure_trailing_newline(&mut out);
                return RemoveOutcome::Removed(out);
            },
            Cut::Dropped(t) => {
                out = t;
                removed = true;
            },
        }
    }
}

/// Whether the guard of an agent is in place, and whether the binary that it names is found.
#[derive(Debug, PartialEq, Eq)]
pub struct HookStatus {
    pub agent: &'static str,
    pub installed: bool,
    /// `None` where nothing is installed, so that there is nothing to find.
    pub binary_resolves: Option<bool>,
}

/// Some element of the event's array would fire and run our command.
pub open spec fn gated(hooks: Seq<(Seq<char>, JsonVal)>, agent: HookAgent, e: Event) -> bool {
    match entries_of(hooks, e) {
        Some(entries) => exists|i: int|
            0 <= i < entries.len() && effective(#[trigger] entries[i], agent, e),
        None => false,
    }
}

/// Both events have an element that would fire and run our command.
pub open spec fn gate_in(root: Option<JsonVal>, agent: HookAgent) -> bool {
    match hooks_of(root) {
        Some(hooks) => gated(hooks, agent, Event::PreToolUse) && gated(
            hooks,
            agent,
            Event::SessionStart,
        ),
        None => false,
    }
}

fn event_gated(hooks: &Vec<(String, Json)>, agent: HookAgent, e: Event) -> (r: bool)
    ensures
        r == gated(members_of(hooks@), agent, e),
{
    broadcast use lemma_elements_view;

    match find_member(hooks, e.name()) {
        Some(Json::Array(a)) => {
            let ghost all = elements_of(a@);
            for i in 0..a.len()
                invariant
                    all == elements_of(a@),
                    entries_of(members_of(hooks@), e) == Some(all),
                    forall|j: int| 0 <= j < i ==> !effective(#[trigger] all[j], agent, e),
            {
                assert(all[i as int] == a@[i as int].view());
                if effectively_ours(&a[i], agent, e) {
                    assert(entries_of(members_of(hooks@), e)->0[i as int] == all[i as int]);
                    assert(gated(members_of(hooks@), agent, e));
                    return true;
                }
            }
            false
        },
        _ => false,
    }
}

/// Is the guard in place, given what the agent's configuration parses to?
pub fn gate_installed(root: &Option<Json>, agent: HookAgent) -> (r: bool)
    ensures
        r == gate_in(opt_json(*root), agent),
{
    broadcast use lemma_members_view;

    match root {
        Some(doc) => match doc.get("hooks") {
            Some(Json::Object(hooks)) => event_gated(hooks, agent, Event::PreToolUse)
                && event_gated(hooks, agent, Event::SessionStart),
            _ => false,
        },
        None => false,
    }
}

/// The state of an agent's guard. `body` is the agent's configuration, where it could be read, and
/// `on_path` tells whether `docli` is found as a command.
pub fn status(agent: HookAgent, body: Option<&str>, on_path: bool) -> (r: HookStatus)
    ensures
        r.agent@ == key_of(agent),
        r.installed == match body {
            Some(b) => gate_in(parsed_json(b@), agent),
            None => false,
        },
        r.binary_resolves == (if r.installed {
            Some(on_path)
        } else {
            None
        }),
{
    let installed: bool = match body {
        Some(b) => {
            let root = parse_json(b);
            gate_installed(&root, agent)
        },
        None => false,
    };
    HookStatus {
        agent: agent.key(),
        installed,
        binary_resolves: if installed {
            Some(on_path)
        } else {
            None
        },
    }
}

/// The configuration to add by hand, under the file it goes into.
pub open spec fn snippet_of(agent: HookAgent) -> Seq<char> {
    path_of(agent) + ":\n"@ + pretty_json(document_of(agent))
}

pub fn snippet(agent: HookAgent) -> (r: String)
    ensures
        r@ == snippet_of(agent),
{
    let doc = document_for(agent);
    let text = print_json_pretty(&doc);
    cat3(agent.config_path(), ":\n", text.as_str())
}

/// What reading an agent's configuration came to.
#[derive(Debug)]
pub enum ConfigRead {
    Missing,
    Text(String),
    Unreadable(String),
}

/// What an installation writes, and what it says once that is written.
#[derive(Debug)]
pub struct Install {
    pub write: Option<String>,
    pub notices: Vec<Notice>,
}

/// What there is to say of an installation, and what there is to write.
pub open spec fn install_of(agent: HookAgent, read: ConfigRead) -> (Option<Seq<char>>, Seq<NoticeVal>) {
    let name = display_of(agent);
    let rel = path_of(agent);
    match read {
        ConfigRead::Unreadable(why) => (
            None,
            seq![
                NoticeVal::Warn(
                    name + ": could not read "@ + rel + " ("@ + why@
                        + ") - hooks were not installed; add them by hand:\n    "@ + snippet_of(
                        agent,
                    ),
                ),
            ],
        ),
        _ => {
            let existing = match read {
                ConfigRead::Text(t) => Some(t@),
                _ => None,
            };
            match merge_val(agent, existing) {
                HookVal::Write(content) => (
                    Some(content),
                    seq![
                        NoticeVal::Done(name + ": wrote hooks into "@ + rel),
                        NoticeVal::Detail(
                            "The agent will ask you to trust this project before any project-local hook runs."@,
                        ),
                    ],
                ),
                HookVal::AlreadyInstalled => (
                    None,
                    seq![NoticeVal::Done(name + ": hooks already installed in "@ + rel)],
                ),
                HookVal::Occupied(why) => (
                    None,
                    seq![
                        NoticeVal::Warn(
                            name + ": "@ + rel + " - "@ + why + "; add them by hand:\n    "@
                                + snippet_of(agent),
                        ),
                    ],
                ),
            }
        },
    }
}

/// Decide what an installation writes and says. A configuration that cannot be merged is named,
/// never fatal.
pub fn install(agent: HookAgent, read: &ConfigRead) -> (r: Install)
    ensures
        (opt_str(r.write), notices(r.notices@)) == install_of(agent, *read),
{
    let mut said: Vec<Notice> = Vec::new();
    let shown = snippet(agent);
    let name = agent.display();
    let rel = agent.config_path();
    let existing: Option<&str> = match read {
        ConfigRead::Unreadable(why) => {
            let head = cat5(name, ": could not read ", rel, " (", why.as_str());
            said.push(
                Notice::Warn(
                    cat3(
                        head.as_str(),
                        ") - hooks were not installed; add them by hand:\n    ",
                        shown.as_str(),
                    ),
                ),
            );
            assert(notices(said@) =~= install_of(agent, *read).1);
            return Install { write: None, notices: said };
        },
        ConfigRead::Text(t) => Some(t.as_str()),
        ConfigRead::Missing => None,
    };
    match merge(agent, existing) {
        HookOutcome::Write(content) => {
            said.push(Notice::Done(cat3(name, ": wrote hooks into ", rel)));
            said.push(
                Notice::Detail(
                    "The agent will ask you to trust this project before any project-local hook runs.".to_owned(),
                ),
            );
            assert(notices(said@) =~= install_of(agent, *read).1);
            Install { write: Some(content), notices: said }
        },
        HookOutcome::AlreadyInstalled => {
            said.push(Notice::Done(cat3(name, ": hooks already installed in ", rel)));
            assert(notices(said@) =~= install_of(agent, *read).1);
            Install { write: None, notices: said }
        },
        HookOutcome::Occupied(why) => {
            let head = cat5(name, ": ", rel, " - ", why.as_str());
            said.push(
                Notice::Warn(
                    cat3(head.as_str(), "; add them by hand:\n    ", shown.as_str()),
                ),
            );
            assert(notices(said@) =~= install_of(agent, *read).1);
            Install { write: None, notices: said }
        },
    }
}

/// What is said of one agent before anything is written.
pub open spec fn consent_of(agent: HookAgent) -> Seq<char> {
    display_of(agent) + ": "@ + path_of(agent)
        + " - a PreToolUse hook that refuses writes into the mirror, and a SessionStart hook that reports mirror freshness. Both run `docli`; neither runs until you trust this project in "@
        + display_of(agent) + "."@
}

/// What is said before anything is written: what will be written, where, and that the agent
/// keeps its own check in front of it.
pub fn consent_summary(agents: &Vec<HookAgent>) -> (r: Vec<String>)
    ensures
        strs(r@) == Seq::new(agents@.len(), |i: int| consent_of(agents@[i])),
{
    broadcast use crate::text::lemma_strs_push;

    let mut out: Vec<String> = Vec::new();
    for i in 0..agents.len()
        invariant
            strs(out@) == Seq::new(i as nat, |k: int| consent_of(agents@[k])),
    {
        broadcast use crate::text::lemma_strs_push;

        let a: HookAgent = agents[i];
        let head = cat3(a.display(), ": ", a.config_path());
        let line = cat4(
            head.as_str(),
            " - a PreToolUse hook that refuses writes into the mirror, and a SessionStart hook that reports mirror freshness. Both run `docli`; neither runs until you trust this project in ",
            a.display(),
            ".",
        );
        assert(line@ =~= consent_of(a));
        out.push(line);
        assert(strs(out@) =~= Seq::new((i + 1) as nat, |k: int| consent_of(agents@[k])));
    }
    out
}

proof fn lemma_field_names()
    ensures
        "hooks"@ != "matcher"@,
        "command"@ != "commandWindows"@,
        "command"@ != "shell"@,
        "command"@ != "timeout"@,
        "command"@ != "type"@,
        "commandWindows"@ != "timeout"@,
        "commandWindows"@ != "type"@,
        "shell"@ != "timeout"@,
        "shell"@ != "type"@,
        "timeout"@ != "type"@,
{
    reveal_strlit("hooks");
    reveal_strlit("matcher");
    reveal_strlit("command");
    reveal_strlit("commandWindows");
    reveal_strlit("shell");
    reveal_strlit("timeout");
    reveal_strlit("type");
    assert("hooks"@.len() == 5 && "matcher"@.len() == 7);
    assert("command"@[0] == 'c' && "commandWindows"@[0] == 'c');
    assert("command"@.len() == 7 && "commandWindows"@.len() == 14);
    assert("shell"@[0] == 's' && "timeout"@[0] == 't' && "type"@[0] == 't');
    assert("timeout"@.len() == 7 && "type"@.len() == 4);
}

proof fn lemma_entry_parts(agent: HookAgent, e: Event)
    ensures
        member(entry_of(agent, e), "hooks"@) == Some(
            JsonVal::Array(seq![JsonVal::Object(handler_of(agent, e))]),
        ),
        member(entry_of(agent, e), "matcher"@) == Some(JsonVal::Text(matcher_of(agent, e))),
        lookup(handler_of(agent, e), "command"@) == Some(JsonVal::Text(command_of(agent, e))),
        forall|i: int|
            0 <= i < 4 ==> lookup(handler_of(agent, e), (#[trigger] handler_of(agent, e)[i]).0)
                == Some(handler_of(agent, e)[i].1),
{
    lemma_field_names();
    let m = entry_of(agent, e)->Object_0;
    let h = handler_of(agent, e);
    reveal_with_fuel(lookup, 5);
    assert(m.drop_first()[0] == m[1]);
    assert(h.drop_first()[0] == h[1]);
    assert(h.drop_first().drop_first()[0] == h[2]);
    assert(h.drop_first().drop_first().drop_first()[0] == h[3]);
    assert forall|i: int| 0 <= i < 4 implies lookup(h, (#[trigger] h[i]).0) == Some(h[i].1) by {
        assert(i == 0 || i == 1 || i == 2 || i == 3);
    }
}

/// What is rendered is recognised: as ours, and as a guard that works.
pub proof fn a_rendered_entry_is_ours_and_works(agent: HookAgent, e: Event)
    ensures
        ours(entry_of(agent, e), agent, e),
        effective(entry_of(agent, e), agent, e),
{
    lemma_entry_parts(agent, e);
    let h = handler_of(agent, e);
    assert(vouched(h, h));
}

/// The names of the members stand in the order in which they are written.
proof fn lemma_names_in_order()
    ensures
        text_lt("hooks"@, "matcher"@),
        text_lt("PreToolUse"@, "SessionStart"@),
        text_lt("command"@, "commandWindows"@),
        text_lt("command"@, "shell"@),
        text_lt("command"@, "timeout"@),
        text_lt("command"@, "type"@),
        text_lt("commandWindows"@, "timeout"@),
        text_lt("commandWindows"@, "type"@),
        text_lt("shell"@, "timeout"@),
        text_lt("shell"@, "type"@),
        text_lt("timeout"@, "type"@),
{
    reveal_strlit("hooks");
    reveal_strlit("matcher");
    reveal_strlit("PreToolUse");
    reveal_strlit("SessionStart");
    reveal_strlit("command");
    reveal_strlit("commandWindows");
    reveal_strlit("shell");
    reveal_strlit("timeout");
    reveal_strlit("type");
    assert("hooks"@[0] == 'h' && "matcher"@[0] == 'm');
    assert("PreToolUse"@[0] == 'P' && "SessionStart"@[0] == 'S');
    assert("command"@[0] == 'c' && "commandWindows"@[0] == 'c');
    assert("shell"@[0] == 's' && "timeout"@[0] == 't' && "type"@[0] == 't');
    assert("timeout"@.drop_first()[0] == 'i' && "type"@.drop_first()[0] == 'y');
    reveal_with_fuel(text_lt, 2);
    assert("commandWindows"@ =~= "command"@ + "commandWindows"@.skip(7));
    crate::text::lemma_prefix_is_less("command"@, "commandWindows"@.skip(7));
}

proof fn lemma_entry_is_plain(agent: HookAgent, e: Event)
    ensures
        plain(entry_of(agent, e), 124),
{
    lemma_names_in_order();
    let h = handler_of(agent, e);
    assert forall|i: int, j: int| 0 <= i < j < h.len() implies text_lt(
        (#[trigger] h[i]).0,
        (#[trigger] h[j]).0,
    ) by {
        assert(i == 0 || i == 1 || i == 2);
        assert(j == 1 || j == 2 || j == 3);
    }
    assert forall|i: int| 0 <= i < h.len() implies plain((#[trigger] h[i]).1, 121) by {
        assert(i == 0 || i == 1 || i == 2 || i == 3);
    }
    assert(plain(JsonVal::Object(h), 122));
    let hs = seq![JsonVal::Object(h)];
    assert(plain(JsonVal::Array(hs), 123));
    let m = entry_of(agent, e)->Object_0;
    assert(plain(m[0].1, 123) && plain(m[1].1, 123));
}

proof fn lemma_document_is_plain(agent: HookAgent)
    ensures
        plain(document_of(agent), 127),
        plain(block_of(agent), 126),
{
    lemma_names_in_order();
    lemma_entry_is_plain(agent, Event::PreToolUse);
    lemma_entry_is_plain(agent, Event::SessionStart);
    let block = block_of(agent)->Object_0;
    assert(plain(block[0].1, 125) && plain(block[1].1, 125));
    assert(plain(block_of(agent), 126));
}

/// A new configuration holds nothing that is not ours.
proof fn lemma_document_is_ours(agent: HookAgent)
    ensures
        spared(Some(document_of(agent)), None, agent),
{
    lemma_event_names();
    a_rendered_entry_is_ours_and_works(agent, Event::PreToolUse);
    a_rendered_entry_is_ours_and_works(agent, Event::SessionStart);
    reveal_with_fuel(lookup, 3);
    reveal_with_fuel(not_ours, 2);
    let doc = document_of(agent)->Object_0;
    let block = block_of(agent)->Object_0;
    assert(block.drop_first()[0] == block[1]);
    assert(block.drop_first().drop_first().len() == 0);
    assert(doc.drop_first().len() == 0);
}

/// A walk over a new configuration finds both arrays.
proof fn lemma_document_is_found(text: Seq<char>, agent: HookAgent)
    requires
        lays_out(text, document_of(agent)),
    ensures
        found_in(text, Some(document_of(agent)), Event::PreToolUse),
        found_in(text, Some(document_of(agent)), Event::SessionStart),
{
    lemma_event_names();
    reveal_with_fuel(lookup, 3);
    let doc = document_of(agent);
    let block = block_of(agent)->Object_0;
    assert(block.drop_first()[0] == block[1]);
    assert(is_frame(doc));
    assert(is_frame(block_of(agent)));
    assert(crate::json::inner_of(doc, "hooks"@) == Some(block));
    assert(located(text, "hooks"@, event_name(Event::PreToolUse), 1));
    assert(located(text, "hooks"@, event_name(Event::SessionStart), 1));
}

/// Where both events are settled and found, a merge into the text with its line feed has nothing
/// to do.
proof fn lemma_merged_once(text: Seq<char>, agent: HookAgent)
    requires
        settled(parsed_json(text), agent, Event::PreToolUse),
        settled(parsed_json(text), agent, Event::SessionStart),
        found_in(text, parsed_json(text), Event::PreToolUse),
        found_in(text, parsed_json(text), Event::SessionStart),
        is_braced(text),
    ensures
        merge_val(agent, Some(newline_ended(text))) is AlreadyInstalled,
{
    lemma_line_ended(text);
    let root = parsed_json(text);
    assert(root is Some && root->0 is Object);
    assert(lookup(root->0->Object_0, "hooks"@) is Some);
    let e = Event::PreToolUse;
    lemma_settled_found(text, root, agent, e, printed_json(entry_of(agent, e)));
    assert(converged(text, false, agent, e, 16) == Course::On(text, false));
    let e = Event::SessionStart;
    lemma_settled_found(text, root, agent, e, printed_json(entry_of(agent, e)));
    assert(converged(text, false, agent, e, 16) == Course::On(text, false));
}

/// A text with ink at both ends that holds an object begins and ends with its brackets.
proof fn lemma_braced(text: Seq<char>)
    requires
        text.len() > 0,
        !is_white(text[0]),
        !is_white(text.last()),
        opens_object(text),
        closes_object(text),
    ensures
        is_braced(text),
{
    let i = choose|i: int|
        0 <= i < text.len() && (#[trigger] text[i]) == '{' && forall|j: int|
            0 <= j < i ==> is_json_blank(#[trigger] text[j]);
    if i > 0 {
        assert(is_json_blank(text[0]));
    }
    let k = choose|k: int|
        0 <= k < text.len() && (#[trigger] text[k]) == '}' && forall|j: int|
            k < j < text.len() ==> is_json_blank(#[trigger] text[j]);
    if k < text.len() - 1 {
        assert(is_json_blank(text[text.len() - 1]));
    }
}

/// A text with the whole block laid in begins and ends as it did.
proof fn lemma_laid_braced(text: Seq<char>, root: Option<JsonVal>, pretty: Seq<char>)
    requires
        is_braced(text),
    ensures
        block_laid(text, root, pretty) matches EditVal::Edited(t) ==> is_braced(t),
{
    let pat = seq!['{'];
    assert(text.subrange(0, 1) =~= pat);
    assert(occurs_at(text, pat, 0));
    lemma_first_is_found(text, pat, 0);
}

/// Two passes, one for each event, leave both settled.
proof fn lemma_both_settled(
    old: Option<JsonVal>,
    laid: Option<JsonVal>,
    mid: Option<JsonVal>,
    now: Option<JsonVal>,
    agent: HookAgent,
)
    requires
        spared(laid, old, agent),
        settled(mid, agent, Event::PreToolUse),
        settled(now, agent, Event::SessionStart),
        hooks_of(laid) is Some ==> but_for_event(mid, laid, agent, Event::PreToolUse),
        hooks_of(mid) is Some ==> but_for_event(now, mid, agent, Event::SessionStart),
        hooks_of(laid) is Some,
    ensures
        settled(now, agent, Event::PreToolUse),
        gate_in(now, agent),
        spared(now, old, agent),
{
    lemma_event_spares(mid, laid, agent, Event::PreToolUse);
    lemma_event_spares(now, mid, agent, Event::SessionStart);
    lemma_settled_works(now, agent, Event::PreToolUse);
    lemma_settled_works(now, agent, Event::SessionStart);
}

proof fn lemma_one_works(hooks: Seq<(Seq<char>, JsonVal)>, agent: HookAgent, e: Event)
    requires
        lookup(hooks, event_name(e)) == Some(JsonVal::Array(seq![entry_of(agent, e)])),
    ensures
        gated(hooks, agent, e),
        ({
            let entries = entries_of(hooks, e)->0;
            our_places(entries, agent, e, entries.len() as int) == seq![0int]
        }),
{
    a_rendered_entry_is_ours_and_works(agent, e);
    let entries = entries_of(hooks, e)->0;
    assert(entries.len() == 1 && entries[0] == entry_of(agent, e));
    assert(effective(entries[0], agent, e));
    reveal_with_fuel(our_places, 2);
    assert(our_places(entries, agent, e, 1) =~= seq![0int]);
}

/// The guard works in a configuration that holds nothing but our entries.
proof fn lemma_document_works(agent: HookAgent)
    ensures
        gate_in(Some(document_of(agent)), agent),
        settled(Some(document_of(agent)), agent, Event::PreToolUse),
        settled(Some(document_of(agent)), agent, Event::SessionStart),
{
    lemma_names_in_order();
    crate::text::lemma_text_lt_irreflexive("PreToolUse"@);
    let hooks = block_of(agent)->Object_0;
    reveal_with_fuel(lookup, 3);
    assert(hooks.drop_first()[0] == hooks[1]);
    lemma_one_works(hooks, agent, Event::PreToolUse);
    lemma_one_works(hooks, agent, Event::SessionStart);
    assert(hooks_of(Some(document_of(agent))) == Some(hooks));
}

proof fn lemma_commands_differ(a: HookAgent, e: Event, b: HookAgent, f: Event)
    requires
        is_our_command(a, e, command_of(b, f)),
    ensures
        key_of(a) == key_of(b),
        e == f,
{
    reveal_strlit("if command -v docli >/dev/null 2>&1; then ");
    reveal_strlit("; fi");
    reveal_strlit("where docli >nul 2>nul && ");
    reveal_strlit(" || exit /b 0");
    reveal_strlit("docli guard --agent ");
    reveal_strlit(" --tool-input -");
    reveal_strlit("docli sync --check --agent ");
    assert(command_of(b, f)[0] == 'i');
    assert(inner_of(a, e)[0] == 'd');
    assert(windows_of(a, e)[0] == 'w');
    let p = "if command -v docli >/dev/null 2>&1; then "@;
    let s = "; fi"@;
    let x = inner_of(a, e);
    let y = inner_of(b, f);
    assert(p + x + s == p + y + s);
    assert((p + x + s).len() == p.len() + x.len() + s.len());
    assert((p + y + s).len() == p.len() + y.len() + s.len());
    assert(x =~= (p + x + s).subrange(p.len() as int, (p.len() + x.len()) as int));
    assert(y =~= (p + y + s).subrange(p.len() as int, (p.len() + y.len()) as int));
    assert(x == y);
    if e == Event::PreToolUse {
        assert(x[6] == 'g');
    } else {
        assert(x[6] == 's');
    }
    if f == Event::PreToolUse {
        assert(y[6] == 'g');
    } else {
        assert(y[6] == 's');
    }
    let head = if e == Event::PreToolUse {
        "docli guard --agent "@
    } else {
        "docli sync --check --agent "@
    };
    let tail = if e == Event::PreToolUse {
        " --tool-input -"@
    } else {
        Seq::empty()
    };
    assert(x =~= head + key_of(a) + tail);
    assert(y =~= head + key_of(b) + tail);
    assert(key_of(a) =~= x.subrange(head.len() as int, x.len() - tail.len()));
    assert(key_of(b) =~= y.subrange(head.len() as int, y.len() - tail.len()));
}

/// An entry belongs to the agent and the event that it was rendered for, and to no other.
pub proof fn ownership_is_per_agent_and_event(a: HookAgent, e: Event, b: HookAgent, f: Event)
    requires
        ours(entry_of(b, f), a, e),
    ensures
        key_of(a) == key_of(b),
        e == f,
{
    lemma_entry_parts(b, f);
    lemma_commands_differ(a, e, b, f);
}

/// The span `from..to` is an element of ours in the array, alone or with the comma that goes
/// with it.
pub open spec fn covers_ours(
    text: Seq<char>,
    span: (int, int),
    entries: Seq<JsonVal>,
    agent: HookAgent,
    e: Event,
    from: int,
    to: int,
) -> bool {
    exists|i: int|
        0 <= i < entries.len() && ours(#[trigger] entries[i], agent, e) && {
            let at = spans_from(text, span.0 + 1, span.1)->0[i];
            (from, to) == at || (from, to) == crate::jsontext::cut_of(
                text,
                span.0,
                span.1,
                at.0,
                at.1,
            )
        }
}

proof fn lemma_array_edit(
    text: Seq<char>,
    span: (int, int),
    entries: Seq<JsonVal>,
    agent: HookAgent,
    e: Event,
    rendered: Seq<char>,
) -> (r: (int, int, Seq<char>))
    requires
        0 <= span.0 < span.1 <= text.len(),
        array_spliced(text, span, entries, agent, e, rendered) is Edited,
    ensures
        0 <= r.0 <= r.1 <= text.len(),
        array_spliced(text, span, entries, agent, e, rendered) == EditVal::Edited(
            splice_of(text, r.0, r.1, r.2),
        ),
        r.0 == r.1 || covers_ours(text, span, entries, agent, e, r.0, r.1),
{
    let spans = spans_from(text, span.0 + 1, span.1)->0;
    let mine = our_places(entries, agent, e, entries.len() as int);
    lemma_places(entries, agent, e, entries.len() as int);
    crate::jsontext::lemma_spans(text, span.0 + 1, span.1);
    if mine.len() == 0 {
        (span.0 + 1, span.0 + 1, led_item(rendered, entries.len() == 0))
    } else if mine.len() > 1 {
        let i = mine.last();
        assert(mine[mine.len() - 1] == i);
        assert(ours(entries[i], agent, e));
        let at = spans[i];
        crate::jsontext::lemma_without_element(text, span.0, span.1, at.0, at.1);
        let cut = crate::jsontext::cut_of(text, span.0, span.1, at.0, at.1);
        (cut.0, cut.1, Seq::empty())
    } else {
        let i = mine[0];
        assert(ours(entries[i], agent, e));
        (spans[i].0, spans[i].1, rendered)
    }
}

proof fn lemma_event_cut(
    text: Seq<char>,
    hooks: Seq<(Seq<char>, JsonVal)>,
    open: int,
    agent: HookAgent,
    e: Event,
) -> (r: (int, int))
    requires
        event_cut(text, hooks, open, agent, e) matches Some(CutVal::Dropped(_)),
    ensures
        0 <= r.0 <= r.1 <= text.len(),
        event_cut(text, hooks, open, agent, e) == Some(
            CutVal::Dropped(splice_of(text, r.0, r.1, Seq::empty())),
        ),
        covers_ours(
            text,
            value_of_key(text, open, event_name(e))->0,
            entries_of(hooks, e)->0,
            agent,
            e,
            r.0,
            r.1,
        ),
{
    let entries = entries_of(hooks, e)->0;
    let span = value_of_key(text, open, event_name(e))->0;
    crate::jsontext::lemma_value_of_key(text, open, event_name(e));
    crate::jsontext::lemma_spans(text, span.0 + 1, span.1);
    lemma_places(entries, agent, e, entries.len() as int);
    let first = our_places(entries, agent, e, entries.len() as int)[0];
    let at = spans_from(text, span.0 + 1, span.1)->0[first];
    assert(ours(entries[first], agent, e));
    crate::jsontext::lemma_without_element(text, span.0, span.1, at.0, at.1);
    crate::jsontext::cut_of(text, span.0, span.1, at.0, at.1)
}

/// The span `from..to` of a configuration is an element of ours under an event, alone or with the
/// comma that goes with it.
pub open spec fn is_our_span(
    text: Seq<char>,
    root: Option<JsonVal>,
    agent: HookAgent,
    e: Event,
    from: int,
    to: int,
) -> bool {
    match (hooks_of(root), object_of_key(text, "hooks"@)) {
        (Some(hooks), Some(open)) => match (
            entries_of(hooks, e),
            value_of_key(text, open, event_name(e)),
        ) {
            (Some(entries), Some(span)) => covers_ours(text, span, entries, agent, e, from, to),
            _ => false,
        },
        _ => false,
    }
}

/// An edit of a configuration only inserts, or only replaces or drops an element of ours:
/// whatever somebody else wrote stays as it is.
pub proof fn an_edit_touches_only_our_elements(
    text: Seq<char>,
    root: Option<JsonVal>,
    agent: HookAgent,
    e: Event,
    rendered: Seq<char>,
) -> (r: (int, int, Seq<char>))
    requires
        event_spliced(text, root, agent, e, rendered) is Edited,
    ensures
        0 <= r.0 <= r.1 <= text.len(),
        event_spliced(text, root, agent, e, rendered) == EditVal::Edited(
            splice_of(text, r.0, r.1, r.2),
        ),
        r.0 == r.1 || is_our_span(text, root, agent, e, r.0, r.1),
{
    let members = root->0->Object_0;
    match lookup(members, "hooks"@) {
        None => {
            let b = find_sub(text, seq!['{'])->0;
            crate::text::lemma_found_is_first(text, seq!['{']);
            (
                b + 1,
                b + 1,
                led_item(
                    "\"hooks\": {\""@ + event_name(e) + "\": ["@ + rendered + "]}"@,
                    members.len() == 0,
                ),
            )
        },
        _ => {
            let hooks = hooks_of(root)->0;
            let open = object_of_key(text, "hooks"@)->0;
            let name = event_name(e);
            crate::jsontext::lemma_object_of_key(text, "hooks"@);
            match lookup(hooks, name) {
                None => (
                    open + 1,
                    open + 1,
                    led_item("\""@ + name + "\": ["@ + rendered + "]"@, hooks.len() == 0),
                ),
                _ => {
                    let span = value_of_key(text, open, name)->0;
                    crate::jsontext::lemma_value_of_key(text, open, name);
                    lemma_array_edit(text, span, entries_of(hooks, e)->0, agent, e, rendered)
                },
            }
        },
    }
}

/// Laying the whole block into a configuration only inserts.
pub proof fn a_laid_block_only_inserts(
    text: Seq<char>,
    root: Option<JsonVal>,
    pretty: Seq<char>,
) -> (r: (int, Seq<char>))
    requires
        block_laid(text, root, pretty) is Edited,
    ensures
        0 <= r.0 <= text.len(),
        block_laid(text, root, pretty) == EditVal::Edited(splice_of(text, r.0, r.0, r.1)),
{
    let b = find_sub(text, seq!['{'])->0;
    crate::text::lemma_found_is_first(text, seq!['{']);
    let more = if root->0->Object_0.len() == 0 {
        ""@
    } else {
        ","@
    };
    (b + 1, "\n  \"hooks\": "@ + replace_char_of(pretty, '\n', "\n  "@) + more)
}

/// A removal step takes out an element of ours and nothing else.
pub proof fn a_removal_takes_only_our_elements(
    text: Seq<char>,
    root: Option<JsonVal>,
    agent: HookAgent,
) -> (r: (Event, int, int))
    requires
        cut_once(text, root, agent) is Dropped,
    ensures
        0 <= r.1 <= r.2 <= text.len(),
        cut_once(text, root, agent) == CutVal::Dropped(splice_of(text, r.1, r.2, Seq::empty())),
        is_our_span(text, root, agent, r.0, r.1, r.2),
{
    let hooks = hooks_of(root)->0;
    let open = object_of_key(text, "hooks"@)->0;
    let e = if event_cut(text, hooks, open, agent, Event::PreToolUse) is Some {
        Event::PreToolUse
    } else {
        Event::SessionStart
    };
    let at = lemma_event_cut(text, hooks, open, agent, e);
    (e, at.0, at.1)
}

/// A configuration in which the entry of an event is exactly what would be written, and no other
/// element of the event is ours.
pub open spec fn settled(root: Option<JsonVal>, agent: HookAgent, e: Event) -> bool {
    match hooks_of(root) {
        Some(hooks) => match entries_of(hooks, e) {
            Some(entries) => {
                let mine = our_places(entries, agent, e, entries.len() as int);
                mine.len() == 1 && entries[mine[0]] == entry_of(agent, e)
            },
            None => false,
        },
        None => false,
    }
}

/// Where a merge finds nothing to do, each event has one entry of ours, exactly as it would be
/// written, and the guard works.
pub proof fn nothing_to_do_is_a_working_guard(agent: HookAgent, existing: Option<Seq<char>>)
    requires
        merge_val(agent, existing) is AlreadyInstalled,
    ensures
        nonblank_of(existing) is Some,
        settled(parsed_json(nonblank_of(existing)->0), agent, Event::PreToolUse),
        settled(parsed_json(nonblank_of(existing)->0), agent, Event::SessionStart),
        gate_in(parsed_json(nonblank_of(existing)->0), agent),
{
    let text = nonblank_of(existing)->0;
    let root = parsed_json(text);
    lemma_unchanged(text, false, agent, Event::PreToolUse, 16);
    lemma_changed_stays(text, agent, Event::PreToolUse, 16);
    let first = converged(text, false, agent, Event::PreToolUse, 16);
    lemma_changed_stays(first->On_0, agent, Event::SessionStart, 16);
    let next = block_laid(text, root, pretty_json(block_of(agent)))->Edited_0;
    lemma_changed_stays(next, agent, Event::PreToolUse, 16);
    lemma_changed_stays(
        converged(next, true, agent, Event::PreToolUse, 16)->On_0,
        agent,
        Event::SessionStart,
        16,
    );
    lemma_unchanged(text, false, agent, Event::SessionStart, 16);
    lemma_settled_works(root, agent, Event::PreToolUse);
    lemma_settled_works(root, agent, Event::SessionStart);
}

/// A pass that starts on another text than the first ends on another text.
proof fn lemma_changed_stays(text: Seq<char>, agent: HookAgent, e: Event, n: nat)
    ensures
        converged(text, true, agent, e, n) matches Course::On(_, c) ==> c,
    decreases n,
{
    if n > 0 {
        if let EditVal::Edited(next) = event_spliced(
            text,
            parsed_json(text),
            agent,
            e,
            printed_json(entry_of(agent, e)),
        ) {
            lemma_changed_stays(next, agent, e, (n - 1) as nat);
        }
    }
}

/// A pass that ends on the text that it started on found the event settled.
proof fn lemma_unchanged(text: Seq<char>, changed: bool, agent: HookAgent, e: Event, n: nat)
    requires
        n > 0,
    ensures
        converged(text, changed, agent, e, n) matches Course::On(t, false) ==> t == text && settled(
            parsed_json(text),
            agent,
            e,
        ),
{
    if let EditVal::Edited(next) = event_spliced(
        text,
        parsed_json(text),
        agent,
        e,
        printed_json(entry_of(agent, e)),
    ) {
        lemma_changed_stays(next, agent, e, (n - 1) as nat);
    }
}

proof fn lemma_settled_works(root: Option<JsonVal>, agent: HookAgent, e: Event)
    requires
        settled(root, agent, e),
    ensures
        gated(hooks_of(root)->0, agent, e),
{
    let entries = entries_of(hooks_of(root)->0, e)->0;
    let mine = our_places(entries, agent, e, entries.len() as int);
    lemma_places(entries, agent, e, entries.len() as int);
    assert(0 <= mine[0] < entries.len());
    a_rendered_entry_is_ours_and_works(agent, e);
    assert(effective(entries[mine[0]], agent, e));
}

/// A configuration in which no element under either event is ours.
pub open spec fn none_of_ours(root: Option<JsonVal>, agent: HookAgent) -> bool {
    match hooks_of(root) {
        Some(hooks) => !has_ours(hooks, agent, Event::PreToolUse) && !has_ours(
            hooks,
            agent,
            Event::SessionStart,
        ),
        None => true,
    }
}

/// A file of hooks is written just where merging gives a text that is new, with that text; a file that
/// cannot be read is left alone, and so is one that already has the hooks or has no room for them.
pub proof fn hooks_are_written_where_there_is_something_to_add(
    agent: HookAgent,
    read: ConfigRead,
    content: Seq<char>,
)
    ensures
        read is Unreadable ==> install_of(agent, read).0 is None,
        read matches ConfigRead::Text(t) ==> (install_of(agent, read).0 == Some(content)
            <==> merge_val(agent, Some(t@)) == HookVal::Write(content)),
        !(read is Unreadable) && !(read is Text) ==> (install_of(agent, read).0 == Some(content)
            <==> merge_val(agent, None) == HookVal::Write(content)),
        install_of(agent, read).0 is None && !(install_of(agent, read).1[0] is Done) ==> install_of(
            agent,
            read,
        ).1[0] is Warn,
        install_of(agent, read).0 is Some ==> install_of(agent, read).1[0] is Done,
        install_of(agent, read).1.len() > 0,
{
}

/// There is nothing to remove from a document in which nothing under either event is ours, and what
/// is no document is refused.
pub proof fn nothing_is_removed_where_nothing_is_ours(agent: HookAgent, text: Seq<char>)
    ensures
        parsed_json(text) is None || !(parsed_json(text)->0 is Object) ==> remove_val(agent, text)
            == RemoveVal::Refused,
        parsed_json(text) is Some && parsed_json(text)->0 is Object && none_of_ours(
            parsed_json(text),
            agent,
        ) ==> remove_val(agent, text) == RemoveVal::NothingOfOurs,
{
}

/// What a hook is to run, for an agent that goes by `key`.
pub open spec fn hook_line(key: Seq<char>, e: Event) -> Seq<char> {
    if e == Event::PreToolUse {
        "docli guard --agent "@ + key + " --tool-input -"@
    } else {
        "docli sync --check --agent "@ + key
    }
}

/// An element is ours by the one command that it runs, bare or guarded for either shell; one that
/// runs anything else, or runs two commands, is somebody's.
pub proof fn an_element_is_ours_by_its_one_command(
    v: JsonVal,
    h: Seq<JsonVal>,
    c: Seq<char>,
    agent: HookAgent,
    e: Event,
)
    requires
        member(v, "hooks"@) == Some(JsonVal::Array(h)),
    ensures
        h.len() != 1 ==> !ours(v, agent, e),
        h.len() == 1 && member(h[0], "command"@) is None ==> !ours(v, agent, e),
        h.len() == 1 && member(h[0], "command"@) == Some(JsonVal::Text(c)) ==> (ours(v, agent, e)
            <==> {
            let line = hook_line(key_of(agent), e);
            ||| c == line
            ||| c == "if command -v docli >/dev/null 2>&1; then "@ + line + "; fi"@
            ||| c == "where docli >nul 2>nul && "@ + line + " || exit /b 0"@
        }),
{
}

proof fn lemma_handler_names(agent: HookAgent, e: Event, k: Seq<char>)
    ensures
        lookup(handler_of(agent, e), k) is Some <==> k == "command"@ || k == "timeout"@ || k
            == "type"@ || (if agent is Codex {
            k == "commandWindows"@
        } else {
            k == "shell"@
        }),
{
    let h = handler_of(agent, e);
    reveal_with_fuel(lookup, 5);
    assert(h.drop_first()[0] == h[1]);
    assert(h.drop_first().drop_first()[0] == h[2]);
    assert(h.drop_first().drop_first().drop_first()[0] == h[3]);
}

/// A guard works just where it stands as it is written: it fires on every tool that writes, or on the
/// start of a session, its first handler is a command that runs our line for the shell of the agent,
/// and nothing else is said in it but how long it may take.
pub proof fn a_guard_works_only_as_it_is_written(
    v: JsonVal,
    h: Seq<JsonVal>,
    got: Seq<(Seq<char>, JsonVal)>,
    agent: HookAgent,
    e: Event,
)
    requires
        member(v, "hooks"@) == Some(JsonVal::Array(h)),
        h.len() > 0,
        h[0] == JsonVal::Object(got),
    ensures
        effective(v, agent, e) <==> {
            let line = hook_line(key_of(agent), e);
            &&& member(v, "matcher"@) == Some(
                JsonVal::Text(
                    if e == Event::SessionStart {
                        "startup|resume"@
                    } else if agent is Codex {
                        "apply_patch|Edit|Write"@
                    } else {
                        "Write|Edit|MultiEdit|NotebookEdit"@
                    },
                ),
            )
            &&& lookup(got, "type"@) == Some(JsonVal::Text("command"@))
            &&& lookup(got, "command"@) == Some(
                JsonVal::Text("if command -v docli >/dev/null 2>&1; then "@ + line + "; fi"@),
            )
            &&& if agent is Codex {
                lookup(got, "commandWindows"@) == Some(
                    JsonVal::Text("where docli >nul 2>nul && "@ + line + " || exit /b 0"@),
                )
            } else {
                lookup(got, "shell"@) == Some(JsonVal::Text("bash"@))
            }
            &&& forall|i: int|
                0 <= i < got.len() ==> {
                    let k = (#[trigger] got[i]).0;
                    ||| k == "command"@
                    ||| k == "timeout"@
                    ||| k == "type"@
                    ||| if agent is Codex {
                        k == "commandWindows"@
                    } else {
                        k == "shell"@
                    }
                }
        },
{
    let want = handler_of(agent, e);
    assert forall|i: int| 0 <= i < got.len() implies (lookup(want, (#[trigger] got[i]).0) is Some
        <==> got[i].0 == "command"@ || got[i].0 == "timeout"@ || got[i].0 == "type"@ || (
    if agent is Codex {
        got[i].0 == "commandWindows"@
    } else {
        got[i].0 == "shell"@
    })) by {
        lemma_handler_names(agent, e, got[i].0);
    }
    lemma_field_names();
    assert(want.len() == 4);
    assert(want[0].0 == "command"@ && want[2].0 == "timeout"@ && want[3].0 == "type"@);
    if vouched(got, want) {
        assert(want[0].0 == "timeout"@ || lookup(got, want[0].0) == Some(want[0].1));
        assert(want[1].0 == "timeout"@ || lookup(got, want[1].0) == Some(want[1].1));
        assert(want[3].0 == "timeout"@ || lookup(got, want[3].0) == Some(want[3].1));
    }
    if lookup(got, want[0].0) == Some(want[0].1) && lookup(got, want[1].0) == Some(want[1].1)
        && lookup(got, want[3].0) == Some(want[3].1) {
        assert forall|j: int| 0 <= j < want.len() implies (#[trigger] want[j]).0 == "timeout"@
            || lookup(got, want[j].0) == Some(want[j].1) by {
            assert(j == 0 || j == 1 || j == 2 || j == 3);
        }
    }
}

/// The mirror is guarded just where both events have an element that works, each under its own name.
pub proof fn a_guard_needs_both_events(
    root: JsonVal,
    hooks: Seq<(Seq<char>, JsonVal)>,
    agent: HookAgent,
)
    ensures
        member(root, "hooks"@) is None ==> !gate_in(Some(root), agent),
        member(root, "hooks"@) == Some(JsonVal::Object(hooks)) ==> (gate_in(Some(root), agent) <==> {
            &&& lookup(hooks, "PreToolUse"@) matches Some(JsonVal::Array(a)) && exists|i: int|
                0 <= i < a.len() && effective(#[trigger] a[i], agent, Event::PreToolUse)
            &&& lookup(hooks, "SessionStart"@) matches Some(JsonVal::Array(b)) && exists|i: int|
                0 <= i < b.len() && effective(#[trigger] b[i], agent, Event::SessionStart)
        }),
{
}

} // verus!
