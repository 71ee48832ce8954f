//! Wiring a project's MCP connection into coding agents: the table of agents, the entry each one
//! takes, and the merges that put it into a configuration the user owns.
//!
//! A merge is a splice. An existing file is never re-serialized: the entry goes into the located
//! object, everything around it stays as it was, and whatever cannot be located for certain is
//! left to the user together with a snippet to paste.

use vstd::prelude::*;

use crate::config::below;
use crate::config::components_of;
use crate::config::mount_abs;
use crate::config::mount_path;
use crate::config::path_below;
use crate::config::Component;
use crate::config::ComponentVal;
use crate::config::Mount;
use crate::json::all_blank;
use crate::json::closes_object;
use crate::json::inner_of;
use crate::json::is_bare_key;
use crate::json::is_json_blank;
use crate::json::lookup;
use crate::json::member;
use crate::json::member_opt;
use crate::json::member_put;
use crate::json::members_of;
use crate::json::noted_text;
use crate::json::one_member_text;
use crate::json::opens_object;
use crate::json::opt_json;
use crate::json::opt_json_ref;
use crate::json::parse_json;
use crate::json::parsed_json;
use crate::json::plain;
use crate::json::print_json;
use crate::json::separates;
use crate::json::stands_in;
use crate::json::printed_json;
use crate::json::with_member;
use crate::json::wraps;
use crate::json::Json;
use crate::json::JsonVal;
use crate::jsontext::ensure_trailing_newline;
use crate::jsontext::lemma_object_of_key;
use crate::jsontext::lemma_value_of_key;
use crate::jsontext::newline_ended;
use crate::jsontext::object_of_key;
use crate::jsontext::splice;
use crate::jsontext::splice_of;
use crate::jsontext::top_level_value_brace;
use crate::jsontext::value_of_key;
use crate::jsontext::value_of_key_in_object;
use crate::labels::is_label;
use crate::labels::valid_label;
use crate::report::notices;
use crate::report::Notice;
use crate::report::NoticeVal;
use crate::text::after_prefix;
use crate::text::cat3;
use crate::text::cat4;
use crate::text::chars_of;
use crate::text::find_in;
use crate::text::find_sub;
use crate::text::is_white;
use crate::text::lemma_first_is_found;
use crate::text::lemma_found_is_first;
use crate::text::occurs_at;
use crate::text::opt_ref;
use crate::text::opt_str;
use crate::text::replace_char;
use crate::text::replace_char_of;
use crate::text::same;
use crate::text::strip_prefix;
use crate::text::trim;
use crate::text::trim_end_char;
use crate::text::trim_end_char_of;
use crate::text::trim_end_of;
use crate::text::trim_of;
use crate::text::trim_start_of;
use crate::toml_text::bare_key;
use crate::toml_text::clear_table;
use crate::toml_text::doc_items;
use crate::toml_text::doc_steps;
use crate::toml_text::document_items;
use crate::toml_text::has_items;
use crate::toml_text::has_outer;
use crate::toml_text::imply_table;
use crate::toml_text::inner_item;
use crate::toml_text::item;
use crate::toml_text::item_opt;
use crate::toml_text::is_filled;
use crate::toml_text::one_text;
use crate::toml_text::opt_toml;
use crate::toml_text::parse_document;
use crate::toml_text::parse_toml;
use crate::toml_text::parsed_toml;
use crate::toml_text::print_document;
use crate::toml_text::put_table;
use crate::toml_text::set_text;
use crate::toml_text::start_table;
use crate::toml_text::table_like;
use crate::toml_text::toml_printed;
use crate::toml_text::Toml;
use crate::toml_text::TomlStep;
use crate::toml_text::TomlVal;
use crate::walks::lemma_object_nests;
use crate::walks::nests_within;

verus! {

/// The path of a labeled MCP connection, up to the label.
pub const MCP_LABEL_PATH_PREFIX: &'static str = "/api/mcp/c/";

/// The path of the unlabeled MCP connection.
pub const MCP_BARE_PATH: &'static str = "/api/mcp";

/// The labeled connection of `server`: its origin without trailing slashes, the path, the label.
pub fn connection_url(server: &str, label: &str) -> (r: String)
    ensures
        r@ == trim_end_char_of(server@, '/') + MCP_LABEL_PATH_PREFIX@ + label@,
{
    let mut out = trim_end_char(server, '/');
    out.push_str(MCP_LABEL_PATH_PREFIX);
    out.push_str(label);
    out
}

/// The unlabeled connection of `server`.
pub fn connection_url_bare(server: &str) -> (r: String)
    ensures
        r@ == trim_end_char_of(server@, '/') + MCP_BARE_PATH@,
{
    let mut out = trim_end_char(server, '/');
    out.push_str(MCP_BARE_PATH);
    out
}

/// The spellings of a JSON entry. `httpUrl` against `url` is load-bearing: some agents read
/// `url` as a server-sent-events endpoint.
#[derive(Clone, Copy, PartialEq, Eq, Debug)]
pub enum JsonShape {
    /// `{"type": "http", "url": ...}`
    TypeHttpUrl,
    /// `{"url": ...}`
    UrlOnly,
    /// `{"httpUrl": ...}`
    HttpUrl,
    /// `{"enabled": true, "type": "remote", "url": ...}`
    OpencodeRemote,
}

/// The entry of a shape for `url`, keys in order.
pub open spec fn entry_of(shape: JsonShape, url: Seq<char>) -> JsonVal {
    match shape {
        JsonShape::TypeHttpUrl => JsonVal::Object(
            seq![("type"@, JsonVal::Text("http"@)), ("url"@, JsonVal::Text(url))],
        ),
        JsonShape::UrlOnly => JsonVal::Object(seq![("url"@, JsonVal::Text(url))]),
        JsonShape::HttpUrl => JsonVal::Object(seq![("httpUrl"@, JsonVal::Text(url))]),
        JsonShape::OpencodeRemote => JsonVal::Object(
            seq![
                ("enabled"@, JsonVal::Bool(true)),
                ("type"@, JsonVal::Text("remote"@)),
                ("url"@, JsonVal::Text(url)),
            ],
        ),
    }
}

proof fn lemma_entry_is_plain(shape: JsonShape, url: Seq<char>)
    ensures
        plain(entry_of(shape, url), 127),
        plain(entry_of(shape, url), 125),
{
    reveal_strlit("type");
    reveal_strlit("url");
    reveal_strlit("enabled");
    assert("type"@[0] == 't' && "url"@[0] == 'u' && "enabled"@[0] == 'e');
    reveal_with_fuel(plain, 2);
}

/// An entry names the connection and how to reach it, and nothing else: it holds no credential.
pub proof fn an_entry_holds_the_url_and_nothing_secret(shape: JsonShape, url: Seq<char>)
    ensures
        entry_of(shape, url) matches JsonVal::Object(m) && forall|i: int|
            0 <= i < m.len() ==> {
                ||| (#[trigger] m[i]).1 == JsonVal::Text(url)
                ||| m[i] == ("type"@, JsonVal::Text("http"@))
                ||| m[i] == ("type"@, JsonVal::Text("remote"@))
                ||| m[i] == ("enabled"@, JsonVal::Bool(true))
            },
{
}

impl JsonShape {
    /// The entry as a value.
    pub fn entry_value(self, url: &str) -> (r: Json)
        ensures
            r.view() == entry_of(self, url@),
    {
        broadcast use crate::json::lemma_members_view;

        let mut m: Vec<(String, Json)> = Vec::new();
        match self {
            JsonShape::TypeHttpUrl => {
                m.push(("type".to_owned(), Json::Text("http".to_owned())));
                m.push(("url".to_owned(), Json::Text(url.to_owned())));
            },
            JsonShape::UrlOnly => {
                m.push(("url".to_owned(), Json::Text(url.to_owned())));
            },
            JsonShape::HttpUrl => {
                m.push(("httpUrl".to_owned(), Json::Text(url.to_owned())));
            },
            JsonShape::OpencodeRemote => {
                m.push(("enabled".to_owned(), Json::Bool(true)));
                m.push(("type".to_owned(), Json::Text("remote".to_owned())));
                m.push(("url".to_owned(), Json::Text(url.to_owned())));
            },
        }
        assert(members_of(m@) =~= entry_of(self, url@)->Object_0);
        Json::Object(m)
    }

    /// The entry as the serializer prints it: a quote in the URL becomes an escaped character
    /// inside the string, never another key.
    pub fn entry(self, url: &str) -> (r: String)
        ensures
            r@ == printed_json(entry_of(self, url@)),
            parsed_json(r@) == Some(entry_of(self, url@)),
            wraps(r@, Some(entry_of(self, url@))),
            nests_within(r@, 125),
    {
        proof {
            lemma_entry_is_plain(self, url@);
        }
        print_json(&self.entry_value(url))
    }

    /// The key under which this shape carries the URL.
    pub fn url_key(self) -> (r: &'static str)
        ensures
            r@ == url_key_of(self),
    {
        match self {
            JsonShape::HttpUrl => "httpUrl",
            _ => "url",
        }
    }
}

pub open spec fn url_key_of(shape: JsonShape) -> Seq<char> {
    match shape {
        JsonShape::HttpUrl => "httpUrl"@,
        _ => "url"@,
    }
}

/// How one agent gets its MCP entry.
#[derive(Clone, Copy, PartialEq, Eq, Debug)]
pub enum McpAdapter {
    /// The entry goes under `top_key` in the JSON file `path`.
    Json { path: &'static str, top_key: &'static str, entry_shape: JsonShape },
    /// The entry is the table `mcp_servers.docli` of the TOML file `path`.
    CodexToml { path: &'static str },
    /// The snippet is printed and nothing is written.
    Print,
}

/// One agent of the picker table.
#[derive(Clone, Copy, Debug)]
pub struct AgentDef {
    pub key: &'static str,
    pub display: &'static str,
    /// A project-relative path whose presence selects this agent.
    pub project_marker: &'static str,
    /// A second such path.
    pub other_project_marker: Option<&'static str>,
    /// A path under the home directory that means the agent is installed on this machine.
    pub home_marker: Option<&'static str>,
    pub adapter: McpAdapter,
    /// Where the skill is copied for an agent that does not read it from the shared path.
    pub skill_copy_dir: Option<&'static str>,
    /// Does the agent's skill frontmatter admit the `paths` key?
    pub accepts_claude_frontmatter: bool,
}

/// An agent whose configuration is a JSON file.
#[verifier::allow_in_spec]
pub fn json_agent(
    key: &'static str,
    display: &'static str,
    markers: (&'static str, Option<&'static str>, Option<&'static str>),
    file: (&'static str, &'static str, JsonShape),
    skill: (Option<&'static str>, bool),
) -> AgentDef
    returns
        (AgentDef {
            key,
            display,
            project_marker: markers.0,
            other_project_marker: markers.1,
            home_marker: markers.2,
            adapter: McpAdapter::Json { path: file.0, top_key: file.1, entry_shape: file.2 },
            skill_copy_dir: skill.0,
            accepts_claude_frontmatter: skill.1,
        }),
{
    AgentDef {
        key,
        display,
        project_marker: markers.0,
        other_project_marker: markers.1,
        home_marker: markers.2,
        adapter: McpAdapter::Json { path: file.0, top_key: file.1, entry_shape: file.2 },
        skill_copy_dir: skill.0,
        accepts_claude_frontmatter: skill.1,
    }
}

/// An agent that only gets a snippet.
#[verifier::allow_in_spec]
pub fn print_agent(
    key: &'static str,
    display: &'static str,
    markers: (&'static str, Option<&'static str>, Option<&'static str>),
    skill: Option<&'static str>,
) -> AgentDef
    returns
        (AgentDef {
            key,
            display,
            project_marker: markers.0,
            other_project_marker: markers.1,
            home_marker: markers.2,
            adapter: McpAdapter::Print,
            skill_copy_dir: skill,
            accepts_claude_frontmatter: false,
        }),
{
    AgentDef {
        key,
        display,
        project_marker: markers.0,
        other_project_marker: markers.1,
        home_marker: markers.2,
        adapter: McpAdapter::Print,
        skill_copy_dir: skill,
        accepts_claude_frontmatter: false,
    }
}

/// The one agent whose configuration is a TOML file.
#[verifier::allow_in_spec]
pub fn codex_agent() -> AgentDef
    returns
        (AgentDef {
            key: "codex",
            display: "Codex CLI (.codex/config.toml)",
            project_marker: ".codex",
            other_project_marker: None,
            home_marker: Some(".codex"),
            adapter: McpAdapter::CodexToml { path: ".codex/config.toml" },
            skill_copy_dir: None,
            accepts_claude_frontmatter: false,
        }),
{
    AgentDef {
        key: "codex",
        display: "Codex CLI (.codex/config.toml)",
        project_marker: ".codex",
        other_project_marker: None,
        home_marker: Some(".codex"),
        adapter: McpAdapter::CodexToml { path: ".codex/config.toml" },
        skill_copy_dir: None,
        accepts_claude_frontmatter: false,
    }
}

/// The agent that shares `.mcp.json` with the project, reads skills from a directory of its own
/// and keeps its hooks in its settings file. What it is called and where it keeps its things is
/// for the caller to say: none of these words stands in the library, and a build of the program
/// sets them.
#[derive(Clone, Copy, Debug)]
pub struct Vendor {
    /// Its key in the picker table and on the command line.
    pub key: &'static str,
    /// What it is called.
    pub name: &'static str,
    /// How the picker lists it.
    pub display: &'static str,
    /// The directory that it keeps in a project, and the one in a home directory.
    pub dir: &'static str,
    /// Where it reads the skill.
    pub skill_dir: &'static str,
    /// The project file in which its hooks live.
    pub settings: &'static str,
    /// The file that it reads instructions from.
    pub instructions: &'static str,
}

/// The picker table: the first six agents get their file written, the others a snippet.
pub open spec fn agent_rows(vendor: Vendor) -> Seq<AgentDef> {
    seq![
        json_agent(
            vendor.key,
            vendor.display,
            (vendor.dir, Some(".mcp.json"), Some(vendor.dir)),
            (".mcp.json", "mcpServers", JsonShape::TypeHttpUrl),
            (Some(vendor.skill_dir), true),
        ),
        codex_agent(),
        json_agent(
            "gemini",
            "Gemini CLI (.gemini/settings.json)",
            (".gemini", None, Some(".gemini")),
            (".gemini/settings.json", "mcpServers", JsonShape::HttpUrl),
            (None, false),
        ),
        json_agent(
            "cursor",
            "Cursor (.cursor/mcp.json)",
            (".cursor", None, Some(".cursor")),
            (".cursor/mcp.json", "mcpServers", JsonShape::UrlOnly),
            (None, false),
        ),
        json_agent(
            "vscode",
            "VS Code / Copilot (.vscode/mcp.json)",
            (".vscode", None, None),
            (".vscode/mcp.json", "servers", JsonShape::TypeHttpUrl),
            (None, false),
        ),
        json_agent(
            "opencode",
            "OpenCode (opencode.json)",
            ("opencode.json", Some(".opencode"), Some(".config/opencode")),
            ("opencode.json", "mcp", JsonShape::OpencodeRemote),
            (None, false),
        ),
        print_agent(
            "qwen",
            "Qwen Code (snippet + skill copy)",
            (".qwen", None, Some(".qwen")),
            Some(".qwen/skills/docli-mirror"),
        ),
        print_agent(
            "cline",
            "Cline (snippet + skill copy)",
            (".clinerules", Some(".cline"), Some(".cline")),
            Some(".cline/skills/docli-mirror"),
        ),
        print_agent(
            "trae",
            "Trae (snippet + skill copy)",
            (".trae", None, Some(".trae")),
            Some(".trae/skills/docli-mirror"),
        ),
        print_agent("zed", "Zed (snippet)", (".zed", None, Some(".config/zed")), None),
        print_agent(
            "windsurf",
            "Windsurf (snippet)",
            (".windsurf", None, Some(".codeium/windsurf")),
            None,
        ),
        print_agent(
            "sourcecraft",
            "SourceCraft Code Assistant (snippet)",
            (".codeassistant", None, None),
            None,
        ),
        print_agent("junie", "JetBrains Junie (snippet)", (".junie", None, Some(".junie")), None),
        print_agent("amp", "Amp (snippet)", (".amp", None, Some(".config/amp")), None),
    ]
}

/// The picker table.
pub fn agents(vendor: Vendor) -> (r: Vec<AgentDef>)
    ensures
        r@ == agent_rows(vendor),
{
    let mut v: Vec<AgentDef> = Vec::new();
    v.push(
        json_agent(
            vendor.key,
            vendor.display,
            (vendor.dir, Some(".mcp.json"), Some(vendor.dir)),
            (".mcp.json", "mcpServers", JsonShape::TypeHttpUrl),
            (Some(vendor.skill_dir), true),
        ),
    );
    v.push(codex_agent());
    v.push(
        json_agent(
            "gemini",
            "Gemini CLI (.gemini/settings.json)",
            (".gemini", None, Some(".gemini")),
            (".gemini/settings.json", "mcpServers", JsonShape::HttpUrl),
            (None, false),
        ),
    );
    v.push(
        json_agent(
            "cursor",
            "Cursor (.cursor/mcp.json)",
            (".cursor", None, Some(".cursor")),
            (".cursor/mcp.json", "mcpServers", JsonShape::UrlOnly),
            (None, false),
        ),
    );
    v.push(
        json_agent(
            "vscode",
            "VS Code / Copilot (.vscode/mcp.json)",
            (".vscode", None, None),
            (".vscode/mcp.json", "servers", JsonShape::TypeHttpUrl),
            (None, false),
        ),
    );
    v.push(
        json_agent(
            "opencode",
            "OpenCode (opencode.json)",
            ("opencode.json", Some(".opencode"), Some(".config/opencode")),
            ("opencode.json", "mcp", JsonShape::OpencodeRemote),
            (None, false),
        ),
    );
    v.push(
        print_agent(
            "qwen",
            "Qwen Code (snippet + skill copy)",
            (".qwen", None, Some(".qwen")),
            Some(".qwen/skills/docli-mirror"),
        ),
    );
    v.push(
        print_agent(
            "cline",
            "Cline (snippet + skill copy)",
            (".clinerules", Some(".cline"), Some(".cline")),
            Some(".cline/skills/docli-mirror"),
        ),
    );
    v.push(
        print_agent(
            "trae",
            "Trae (snippet + skill copy)",
            (".trae", None, Some(".trae")),
            Some(".trae/skills/docli-mirror"),
        ),
    );
    v.push(print_agent("zed", "Zed (snippet)", (".zed", None, Some(".config/zed")), None));
    v.push(
        print_agent(
            "windsurf",
            "Windsurf (snippet)",
            (".windsurf", None, Some(".codeium/windsurf")),
            None,
        ),
    );
    v.push(
        print_agent(
            "sourcecraft",
            "SourceCraft Code Assistant (snippet)",
            (".codeassistant", None, None),
            None,
        ),
    );
    v.push(
        print_agent("junie", "JetBrains Junie (snippet)", (".junie", None, Some(".junie")), None),
    );
    v.push(print_agent("amp", "Amp (snippet)", (".amp", None, Some(".config/amp")), None));
    assert(v@ =~= agent_rows(vendor));
    v
}

/// The first row of that key.
pub open spec fn row_of(rows: Seq<AgentDef>, key: Seq<char>) -> Option<AgentDef>
    decreases rows.len(),
{
    if rows.len() == 0 {
        None
    } else if rows[0].key@ == key {
        Some(rows[0])
    } else {
        row_of(rows.drop_first(), key)
    }
}

/// The agent of that key.
pub fn agent(vendor: Vendor, key: &str) -> (r: Option<AgentDef>)
    ensures
        r == row_of(agent_rows(vendor), key@),
{
    let rows = agents(vendor);
    assert(rows@.skip(0) =~= rows@);
    for i in 0..rows.len()
        invariant
            rows@ == agent_rows(vendor),
            row_of(agent_rows(vendor), key@) == row_of(rows@.skip(i as int), key@),
    {
        assert(rows@.skip(i as int)[0] == rows@[i as int]);
        assert(rows@.skip(i as int).drop_first() =~= rows@.skip(i + 1));
        if same(rows[i].key, key) {
            return Some(rows[i]);
        }
    }
    None
}

/// The markers that were found, as texts.
pub open spec fn marked(d: AgentDef, project: Seq<Seq<char>>, home: Option<Seq<Seq<char>>>) -> bool {
    ||| project.contains(d.project_marker@)
    ||| d.other_project_marker is Some && project.contains(d.other_project_marker->0@)
    ||| home is Some && d.home_marker is Some && home->0.contains(d.home_marker->0@)
}

/// The keys of the marked rows, in table order.
pub open spec fn detected(
    rows: Seq<AgentDef>,
    project: Seq<Seq<char>>,
    home: Option<Seq<Seq<char>>>,
) -> Seq<&'static str>
    decreases rows.len(),
{
    if rows.len() == 0 {
        Seq::empty()
    } else {
        let before = detected(rows.drop_last(), project, home);
        if marked(rows.last(), project, home) {
            before.push(rows.last().key)
        } else {
            before
        }
    }
}

/// The agents that the markers found in the project and in the home directory select. `home` is
/// `None` where there is no home directory.
pub fn detect(
    vendor: Vendor,
    project: &Vec<String>,
    home: Option<&Vec<String>>,
) -> (r: Vec<&'static str>)
    ensures
        r@ == detected(
            agent_rows(vendor),
            crate::text::strs(project@),
            match home {
                Some(h) => Some(crate::text::strs(h@)),
                None => None,
            },
        ),
{
    let rows = agents(vendor);
    let ghost hs = match home {
        Some(h) => Some(crate::text::strs(h@)),
        None => None,
    };
    let mut out: Vec<&'static str> = Vec::new();
    for i in 0..rows.len()
        invariant
            rows@ == agent_rows(vendor),
            hs == (match home {
                Some(h) => Some(crate::text::strs(h@)),
                None => None,
            }),
            out@ == detected(rows@.take(i as int), crate::text::strs(project@), hs),
    {
        assert(rows@.take(i + 1).drop_last() =~= rows@.take(i as int));
        let d: AgentDef = rows[i];
        let mut hit = crate::text::has_str(project, d.project_marker);
        if let Some(m) = d.other_project_marker {
            hit = hit || crate::text::has_str(project, m);
        }
        if let Some(h) = home {
            if let Some(m) = d.home_marker {
                hit = hit || crate::text::has_str(h, m);
            }
        }
        if hit {
            out.push(d.key);
        }
    }
    assert(rows@.take(rows@.len() as int) =~= rows@);
    out
}

/// What a merge decided.
#[derive(Debug, PartialEq, Eq)]
pub enum MergeOutcome {
    /// The whole new text of the file.
    Write(String),
    /// The entry is there; `same` tells whether it is what would be written today.
    AlreadyConfigured { same: bool },
    /// Nothing can be merged safely, for this reason; the caller prints the snippet.
    Occupied(String),
}

/// What a [`MergeOutcome`] says.
pub enum MergeVal {
    Write(Seq<char>),
    AlreadyConfigured(bool),
    Occupied(Seq<char>),
}

impl MergeOutcome {
    pub open spec fn view(&self) -> MergeVal {
        match self {
            MergeOutcome::Write(s) => MergeVal::Write(s@),
            MergeOutcome::AlreadyConfigured { same } => MergeVal::AlreadyConfigured(*same),
            MergeOutcome::Occupied(s) => MergeVal::Occupied(s@),
        }
    }
}

/// The text of a file that has one: trimmed, and `None` where nothing is left.
pub open spec fn nonblank_of(existing: Option<Seq<char>>) -> Option<Seq<char>> {
    match existing {
        Some(t) => if trim_of(t).len() == 0 {
            None
        } else {
            Some(trim_of(t))
        },
        None => None,
    }
}

pub fn nonblank(existing: Option<&str>) -> (r: Option<String>)
    ensures
        opt_str(r) == nonblank_of(opt_ref(existing)),
{
    match existing {
        Some(t) => {
            let s = trim(t);
            if s.as_str().is_empty() {
                None
            } else {
                Some(s)
            }
        },
        None => None,
    }
}

/// The file that is written where there was none.
pub open spec fn fresh_file(top_key: Seq<char>, entry: Seq<char>) -> Seq<char> {
    "{\n  \""@ + top_key + "\": {\n    \"docli\": "@ + entry + "\n  }\n}\n"@
}

/// The text with the value of the only `docli` member under `top_key` replaced.
pub open spec fn entry_replaced(text: Seq<char>, top_key: Seq<char>, entry: Seq<char>) -> Option<
    Seq<char>,
> {
    match object_of_key(text, top_key) {
        Some(open) => match value_of_key(text, open, "docli"@) {
            Some(span) => Some(newline_ended(splice_of(text, span.0, span.1, entry))),
            None => None,
        },
        None => None,
    }
}

/// Replace the value of the `docli` member under `top_key`; `None` where it cannot be located
/// for certain.
pub fn replace_docli_entry(text: &str, top_key: &str, entry: &str) -> (r: Option<String>)
    ensures
        opt_str(r) == entry_replaced(text@, top_key@, entry@),
{
    let v = chars_of(text);
    let k = chars_of(top_key);
    let d = chars_of("docli");
    match top_level_value_brace(&v, &k) {
        Some(open) => match value_of_key_in_object(&v, open, &d) {
            Some(span) => {
                let mut out = splice(&v, span.0, span.1, entry);
                ensure_trailing_newline(&mut out);
                Some(out)
            },
            None => None,
        },
        None => None,
    }
}

/// What is put behind the opening bracket: `item`, and a separator where members follow.
pub open spec fn led_item(item: Seq<char>, alone: bool) -> Seq<char> {
    if alone {
        item
    } else {
        item + ", "@
    }
}

/// The outcome of merging `entry` under `top_key` into a text that is not blank, given what the
/// text and the entry parse to.
pub open spec fn merge_of(
    text: Seq<char>,
    root: Option<JsonVal>,
    desired: JsonVal,
    top_key: Seq<char>,
    entry: Seq<char>,
) -> MergeVal {
    match root {
        None => MergeVal::Occupied("does not parse as strict JSON (it may contain comments)"@),
        Some(JsonVal::Object(members)) => match lookup(members, top_key) {
            Some(JsonVal::Object(servers)) => match lookup(servers, "docli"@) {
                Some(ours) => if ours == desired {
                    MergeVal::AlreadyConfigured(true)
                } else {
                    match entry_replaced(text, top_key, entry) {
                        Some(out) => MergeVal::Write(out),
                        None => MergeVal::AlreadyConfigured(false),
                    }
                },
                None => match object_of_key(text, top_key) {
                    None => MergeVal::Occupied(
                        "could not locate the \""@ + top_key + "\" object to merge into"@,
                    ),
                    Some(b) => MergeVal::Write(
                        newline_ended(
                            splice_of(
                                text,
                                b + 1,
                                b + 1,
                                led_item("\"docli\": "@ + entry, servers.len() == 0),
                            ),
                        ),
                    ),
                },
            },
            Some(_) => MergeVal::Occupied("\""@ + top_key + "\" is not an object"@),
            None => match find_sub(text, seq!['{']) {
                None => MergeVal::Occupied("no root object"@),
                Some(b) => MergeVal::Write(
                    newline_ended(
                        splice_of(
                            text,
                            b + 1,
                            b + 1,
                            led_item(
                                "\""@ + top_key + "\": {\"docli\": "@ + entry + "}"@,
                                members.len() == 0,
                            ),
                        ),
                    ),
                ),
            },
        },
        Some(_) => MergeVal::Occupied("root is not a JSON object"@),
    }
}

fn lead(item: String, alone: bool) -> (r: String)
    ensures
        r@ == led_item(item@, alone),
{
    let mut s = item;
    if !alone {
        s.push_str(", ");
    }
    s
}

/// The index of the first opening brace.
pub fn first_brace(v: &Vec<char>) -> (r: Option<usize>)
    ensures
        crate::text::opt_int(r) == find_sub(v@, seq!['{']),
        r matches Some(i) ==> i < v@.len(),
{
    let mut one: Vec<char> = Vec::new();
    one.push('{');
    assert(one@ =~= seq!['{']);
    find_in(v, &one)
}

/// Merge `entry` under `top_key` into `text`, which is not blank, given what the two parse to.
pub fn merge_parsed(
    text: &str,
    root: &Option<Json>,
    desired: &Json,
    top_key: &str,
    entry: &str,
) -> (r: MergeOutcome)
    ensures
        r.view() == merge_of(text@, opt_json(*root), desired.view(), top_key@, entry@),
{
    broadcast use crate::json::lemma_members_view;

    let members: &Vec<(String, Json)> = match root {
        None => {
            return MergeOutcome::Occupied(
                "does not parse as strict JSON (it may contain comments)".to_owned(),
            );
        },
        Some(Json::Object(m)) => m,
        Some(_) => {
            return MergeOutcome::Occupied("root is not a JSON object".to_owned());
        },
    };
    let v = chars_of(text);
    match crate::json::find_member(members, top_key) {
        Some(Json::Object(servers)) => {
            if let Some(ours) = crate::json::find_member(servers, "docli") {
                if ours.equals(desired) {
                    return MergeOutcome::AlreadyConfigured { same: true };
                }
                return match replace_docli_entry(text, top_key, entry) {
                    Some(out) => MergeOutcome::Write(out),
                    None => MergeOutcome::AlreadyConfigured { same: false },
                };
            }
            let k = chars_of(top_key);
            match top_level_value_brace(&v, &k) {
                None => MergeOutcome::Occupied(
                    crate::text::cat3("could not locate the \"", top_key, "\" object to merge into"),
                ),
                Some(b) => {
                    let item = lead(crate::text::cat2("\"docli\": ", entry), servers.len() == 0);
                    let mut out = splice(&v, b + 1, b + 1, item.as_str());
                    ensure_trailing_newline(&mut out);
                    MergeOutcome::Write(out)
                },
            }
        },
        Some(_) => MergeOutcome::Occupied(crate::text::cat3("\"", top_key, "\" is not an object")),
        None => match first_brace(&v) {
            None => MergeOutcome::Occupied("no root object".to_owned()),
            Some(b) => {
                let item = lead(
                    crate::text::cat5("\"", top_key, "\": {\"docli\": ", entry, "}"),
                    members.len() == 0,
                );
                let mut out = splice(&v, b + 1, b + 1, item.as_str());
                ensure_trailing_newline(&mut out);
                MergeOutcome::Write(out)
            },
        },
    }
}

/// The outcome of a merge into a file that may be missing.
pub open spec fn merge_json_of(
    existing: Option<Seq<char>>,
    top_key: Seq<char>,
    entry: Seq<char>,
) -> MergeVal {
    match nonblank_of(existing) {
        None => MergeVal::Write(fresh_file(top_key, entry)),
        Some(t) => merge_of(t, parsed_json(t), parsed_json(entry)->0, top_key, entry),
    }
}

/// Splice `"docli": <entry>` under `top_key` into a JSON configuration, keeping the user's text.
/// The entry is serializer output, which always parses. A second merge finds it, and every other
/// member of the file, and of the object it went into, is as it was.
pub fn merge_json(existing: Option<&str>, top_key: &str, entry: &str) -> (r: MergeOutcome)
    requires
        parsed_json(entry@) is Some,
    ensures
        r.view() == merge_json_of(opt_ref(existing), top_key@, entry@),
        r.view() is Write && is_bare_key(top_key@) && nests_within(entry@, 125) ==> {
            let out = r.view()->Write_0;
            let was = parsed_opt(nonblank_of(opt_ref(existing)));
            let now = parsed_json(trim_of(out));
            &&& merge_json_of(Some(out), top_key@, entry@) == MergeVal::AlreadyConfigured(true)
            &&& forall|k: Seq<char>|
                k != top_key@ ==> #[trigger] member_opt(now, k) == member_opt(was, k)
            &&& forall|k: Seq<char>|
                k != "docli"@ ==> #[trigger] member_opt(member_opt(now, top_key@), k)
                    == member_opt(member_opt(was, top_key@), k)
        },
{
    let desired = match parse_json(entry) {
        Some(d) => d,
        None => {
            assert(false);
            return MergeOutcome::AlreadyConfigured { same: false };
        },
    };
    let text: String = match nonblank(existing) {
        None => {
            let out = crate::text::cat5(
                "{\n  \"",
                top_key,
                "\": {\n    \"docli\": ",
                entry,
                "\n  }\n}\n",
            );
            proof {
                lemma_fresh_file(top_key@, entry@);
                reveal_with_fuel(lookup, 2);
            }
            return MergeOutcome::Write(out);
        },
        Some(t) => t,
    };
    let root = parse_json(text.as_str());
    let merged = merge_parsed(text.as_str(), &root, &desired, top_key, entry);
    proof {
        if merged.view() is Write && is_bare_key(top_key@) && nests_within(entry@, 125) {
            lemma_trimmed_ends(existing->0@);
            lemma_merged_text(text@, root->0.view(), desired.view(), top_key@, entry@);
            reveal_with_fuel(lookup, 2);
            let v = one_member_text(""@, "docli"@, entry@, ""@);
            let x = JsonVal::Object(seq![("docli"@, desired.view())]);
            assert(parsed_json(v) == Some(x));
            lemma_object_nests("docli"@, entry@, 125);
            let out = merged.view()->Write_0;
            let now = parsed_json(trim_of(out));
            if let Some(span) = value_of_key(text@, object_of_key(text@, top_key@)->0, "docli"@) {
                assert(member_opt(member_opt(opt_json(root), top_key@), "docli"@) is Some ==> stands_in(
                    text@,
                    opt_json(root),
                    top_key@,
                    "docli"@,
                    span.0,
                    span.1,
                ));
            }
            assert(now is Some && member(now->0, top_key@) is Some);
            assert(member(member(now->0, top_key@)->0, "docli"@) == Some(desired.view()));
        }
    }
    merged
}

/// The file that is written where there was none is, but for the line feed at its end, an object
/// in an object.
proof fn lemma_fresh_file(top_key: Seq<char>, entry: Seq<char>)
    ensures
        nonblank_of(Some(fresh_file(top_key, entry))) == Some(
            one_member_text(
                "\n  "@,
                top_key,
                one_member_text("\n    "@, "docli"@, entry, "\n  "@),
                "\n"@,
            ),
        ),
        all_blank("\n  "@) && all_blank("\n    "@) && all_blank("\n"@) && is_bare_key("docli"@),
{
    reveal_strlit("{\n  \"");
    reveal_strlit("\": {\n    \"docli\": ");
    reveal_strlit("\n  }\n}\n");
    reveal_strlit("{");
    reveal_strlit("}");
    reveal_strlit("\"");
    reveal_strlit("\": ");
    reveal_strlit("docli");
    reveal_strlit("\n  ");
    reveal_strlit("\n    ");
    reveal_strlit("\n");
    let t = one_member_text(
        "\n  "@,
        top_key,
        one_member_text("\n    "@, "docli"@, entry, "\n  "@),
        "\n"@,
    );
    assert(fresh_file(top_key, entry) =~= t.push('\n'));
    lemma_line_ended(t);
}

/// A text with ink at both ends, and a line feed, trims to the text.
pub proof fn lemma_line_ended(t: Seq<char>)
    requires
        t.len() > 0,
        !is_white(t[0]),
        !is_white(t.last()),
    ensures
        nonblank_of(Some(t.push('\n'))) == Some(t),
        newline_ended(t) == t.push('\n'),
{
    assert(t.push('\n').drop_last() =~= t);
    reveal_with_fuel(trim_end_of, 2);
}

/// A trimmed text has ink at both ends.
pub proof fn lemma_trimmed_ends(s: Seq<char>)
    requires
        trim_of(s).len() > 0,
    ensures
        !is_white(trim_of(s)[0]),
        !is_white(trim_of(s).last()),
{
    lemma_trim_end_inks(s);
    lemma_trim_start_inks(trim_end_of(s));
}

proof fn lemma_trim_end_inks(s: Seq<char>)
    ensures
        trim_end_of(s).len() > 0 ==> !is_white(trim_end_of(s).last()),
    decreases s.len(),
{
    if s.len() > 0 && is_white(s.last()) {
        lemma_trim_end_inks(s.drop_last());
    }
}

proof fn lemma_trim_start_inks(s: Seq<char>)
    ensures
        trim_start_of(s).len() > 0 ==> !is_white(trim_start_of(s)[0]) && trim_start_of(s).last()
            == s.last(),
    decreases s.len(),
{
    if s.len() > 0 && is_white(s[0]) {
        lemma_trim_start_inks(s.drop_first());
    }
}

/// What a merge writes is, but for the line feed at its end, the text with a member put into the
/// root or into the object under `top_key`, or with the value of the entry replaced.
proof fn lemma_merged_text(
    text: Seq<char>,
    root: JsonVal,
    desired: JsonVal,
    top_key: Seq<char>,
    entry: Seq<char>,
)
    requires
        text.len() > 0,
        !is_white(text[0]),
        !is_white(text.last()),
        opens_object(text),
        closes_object(text),
        merge_of(text, Some(root), desired, top_key, entry) is Write,
    ensures
        ({
            let out = merge_of(text, Some(root), desired, top_key, entry)->Write_0;
            let t = merged_text(text, root, top_key, entry);
            &&& text[0] == '{'
            &&& nonblank_of(Some(out)) == Some(t)
            &&& trim_of(out) == t
        }),
        all_blank(""@) && is_bare_key("docli"@),
        separates(led_item(""@, true), true) && separates(led_item(""@, false), false),
{
    reveal_strlit("{");
    reveal_strlit("}");
    reveal_strlit("");
    reveal_strlit("\"");
    reveal_strlit("\": ");
    reveal_strlit("\"docli\": ");
    reveal_strlit("\": {\"docli\": ");
    reveal_strlit(", ");
    reveal_strlit("docli");
    let i = choose|i: int|
        0 <= i < text.len() && (#[trigger] text[i]) == '{' && forall|j: int|
            0 <= j < i ==> is_json_blank(#[trigger] text[j]);
    if i > 0 {
        assert(is_json_blank(text[0]));
    }
    let z = choose|z: int|
        0 <= z < text.len() && (#[trigger] text[z]) == '}' && forall|j: int|
            z < j < text.len() ==> is_json_blank(#[trigger] text[j]);
    if z < text.len() - 1 {
        assert(is_json_blank(text[text.len() - 1]));
    }
    let pat = seq!['{'];
    assert(text.subrange(0, 1) =~= pat);
    assert(occurs_at(text, pat, 0));
    lemma_first_is_found(text, pat, 0);
    let t = merged_text(text, root, top_key, entry);
    match lookup(root->Object_0, top_key) {
        None => {
            let alone = root->Object_0.len() == 0;
            let item = led_item("\""@ + top_key + "\": {\"docli\": "@ + entry + "}"@, alone);
            assert(splice_of(text, 1, 1, item) =~= t);
        },
        Some(inner) => {
            let servers = inner->Object_0;
            lemma_object_of_key(text, top_key);
            let open = object_of_key(text, top_key)->0;
            if lookup(servers, "docli"@) is Some {
                lemma_value_of_key(text, open, "docli"@);
            } else {
                let item = led_item("\"docli\": "@ + entry, servers.len() == 0);
                assert(splice_of(text, open + 1, open + 1, item) =~= t);
            }
        },
    }
    assert(t.last() == text.last());
    assert(t[0] == text[0]);
    lemma_line_ended(t);
}

/// The text that a merge makes of an object, before the line feed at its end.
pub open spec fn merged_text(
    text: Seq<char>,
    root: JsonVal,
    top_key: Seq<char>,
    entry: Seq<char>,
) -> Seq<char> {
    match inner_of(root, top_key) {
        None => member_put(
            text,
            0,
            ""@,
            top_key,
            one_member_text(""@, "docli"@, entry, ""@),
            led_item(""@, root->Object_0.len() == 0),
        ),
        Some(servers) => {
            let open = object_of_key(text, top_key)->0;
            if lookup(servers, "docli"@) is Some {
                let span = value_of_key(text, open, "docli"@)->0;
                splice_of(text, span.0, span.1, entry)
            } else {
                member_put(text, open, ""@, "docli"@, entry, led_item(""@, servers.len() == 0))
            }
        },
    }
}

/// What an optional text parses to.
pub open spec fn parsed_opt(t: Option<Seq<char>>) -> Option<JsonVal> {
    match t {
        Some(s) => parsed_json(s),
        None => None,
    }
}

/// A merge into a file is a splice: but for a line feed at the end of the file, every character
/// that the user wrote stays, and what is replaced, if anything, is the value of our own entry.
pub proof fn a_merge_keeps_what_the_user_wrote(
    text: Seq<char>,
    root: Option<JsonVal>,
    desired: JsonVal,
    top_key: Seq<char>,
    entry: Seq<char>,
)
    requires
        merge_of(text, root, desired, top_key, entry) is Write,
    ensures
        exists|a: int, b: int, with: Seq<char>|
            {
                &&& 0 <= a <= b <= text.len()
                &&& merge_of(text, root, desired, top_key, entry) == MergeVal::Write(
                    newline_ended(#[trigger] splice_of(text, a, b, with)),
                )
                &&& a < b ==> with == entry && object_of_key(text, top_key) is Some
                    && value_of_key(text, object_of_key(text, top_key)->0, "docli"@) == Some((a, b))
            },
{
    let m = merge_of(text, root, desired, top_key, entry);
    let members = root->0->Object_0;
    match lookup(members, top_key) {
        Some(_) => {
            let servers = lookup(members, top_key)->0->Object_0;
            let open = object_of_key(text, top_key)->0;
            if lookup(servers, "docli"@) is Some {
                lemma_value_of_key(text, open, "docli"@);
                let span = value_of_key(text, open, "docli"@)->0;
                assert(m == MergeVal::Write(
                    newline_ended(splice_of(text, span.0, span.1, entry)),
                ));
            } else {
                lemma_object_of_key(text, top_key);
                let item = led_item("\"docli\": "@ + entry, servers.len() == 0);
                assert(m == MergeVal::Write(
                    newline_ended(splice_of(text, open + 1, open + 1, item)),
                ));
            }
        },
        None => {
            lemma_found_is_first(text, seq!['{']);
            let at = find_sub(text, seq!['{'])->0;
            let item = led_item(
                "\""@ + top_key + "\": {\"docli\": "@ + entry + "}"@,
                members.len() == 0,
            );
            assert(m == MergeVal::Write(newline_ended(splice_of(text, at + 1, at + 1, item))));
        },
    }
}

/// What each way of writing the entry of a TOML configuration prints.
pub struct CodexTexts {
    pub refilled: Seq<char>,
    pub replaced: Seq<char>,
    pub added: Seq<char>,
    pub started: Seq<char>,
}

/// The entry is a table whose one key is `url` with that value.
pub open spec fn is_codex_entry(entry: TomlVal, url: Seq<char>) -> bool {
    table_like(entry) == Some(one_text("url"@, url))
}

/// The outcome of a TOML merge: an entry that is exactly ours stays, a table is refilled in
/// place, and any other value is replaced.
pub open spec fn codex_of(doc: Option<TomlVal>, url: Seq<char>, texts: CodexTexts) -> MergeVal {
    match doc {
        None => MergeVal::Occupied("does not parse as TOML"@),
        Some(root) => match item(root, "mcp_servers"@) {
            None => MergeVal::Write(texts.started),
            Some(servers) => if table_like(servers) is None {
                MergeVal::Occupied("mcp_servers is not a table"@)
            } else {
                match item(servers, "docli"@) {
                    None => MergeVal::Write(texts.added),
                    Some(entry) => if is_codex_entry(entry, url) {
                        MergeVal::AlreadyConfigured(true)
                    } else if entry is Table {
                        MergeVal::Write(texts.refilled)
                    } else {
                        MergeVal::Write(texts.replaced)
                    },
                }
            },
        },
    }
}

/// How the entry of a TOML file is to be written.
#[derive(Debug, PartialEq, Eq)]
pub enum CodexStep {
    /// Nothing is written.
    Done(MergeOutcome),
    /// Refill the table that is there.
    Refill,
    /// Assign a new table in place of another value.
    Replace,
    /// Assign a new table.
    Add,
    /// Assign a new table under a new `mcp_servers`.
    Start,
}

/// Decide how to write the entry into a parsed TOML document.
pub fn codex_step(doc: &Option<Toml>, url: &str) -> (r: CodexStep)
    ensures
        forall|texts: CodexTexts|
            #[trigger] codex_of(opt_toml(*doc), url@, texts) == (match r {
                CodexStep::Done(o) => o.view(),
                CodexStep::Refill => MergeVal::Write(texts.refilled),
                CodexStep::Replace => MergeVal::Write(texts.replaced),
                CodexStep::Add => MergeVal::Write(texts.added),
                CodexStep::Start => MergeVal::Write(texts.started),
            }),
        ({
            let servers = item_opt(opt_toml(*doc), "mcp_servers"@);
            let entry = item_opt(servers, "docli"@);
            &&& r is Refill ==> entry is Some && entry->0 is Table
            &&& r is Replace ==> entry is Some && !(entry->0 is Table)
            &&& r is Add ==> servers is Some && table_like(servers->0) is Some && entry is None
            &&& r is Start ==> *doc is Some && servers is None
        }),
        r matches CodexStep::Done(o) ==> !(o.view() is Write),
{
    let root: &Toml = match doc {
        None => {
            return CodexStep::Done(MergeOutcome::Occupied("does not parse as TOML".to_owned()));
        },
        Some(d) => d,
    };
    let servers: &Toml = match root.get("mcp_servers") {
        None => {
            return CodexStep::Start;
        },
        Some(s) => s,
    };
    if !servers.is_table_like() {
        return CodexStep::Done(MergeOutcome::Occupied("mcp_servers is not a table".to_owned()));
    }
    match servers.get("docli") {
        None => CodexStep::Add,
        Some(entry) => {
            if entry.holds_only("url", url) {
                return CodexStep::Done(MergeOutcome::AlreadyConfigured { same: true });
            }
            match entry {
                Toml::Table(_) => CodexStep::Refill,
                _ => CodexStep::Replace,
            }
        },
    }
}

/// The text a TOML merge starts from: a missing or blank file is an empty document.
pub open spec fn codex_text(existing: Option<Seq<char>>) -> Seq<char> {
    match nonblank_of(existing) {
        Some(t) => t,
        None => ""@,
    }
}

/// The last step of writing the entry, after the others.
pub open spec fn with_url(steps: Seq<TomlStep>, url: Seq<char>) -> Seq<TomlStep> {
    steps.push(TomlStep::Given("mcp_servers"@, "docli"@, "url"@, url))
}

/// What `toml_edit` prints for each way of writing the entry.
pub open spec fn codex_texts(text: Seq<char>, url: Seq<char>) -> CodexTexts {
    let clear = TomlStep::Cleared("mcp_servers"@, "docli"@);
    let bare = TomlStep::Bared("mcp_servers"@, "docli"@);
    let start = TomlStep::Started("mcp_servers"@);
    let imply = TomlStep::Implied("mcp_servers"@);
    let put = TomlStep::Put("mcp_servers"@, "docli"@);
    let parse = seq![TomlStep::Parsed(text)];
    CodexTexts {
        refilled: toml_printed(with_url(parse.push(clear), url)),
        replaced: toml_printed(with_url(parse.push(bare).push(put), url)),
        added: toml_printed(with_url(parse.push(put), url)),
        started: toml_printed(with_url(parse.push(start).push(imply).push(put), url)),
    }
}

/// A TOML document is the other one but for `mcp_servers.docli`, which is a table with `url` as
/// its one key.
pub open spec fn entry_alone_changed(
    now: Option<TomlVal>,
    was: Option<TomlVal>,
    url: Seq<char>,
) -> bool {
    &&& now is Some && was is Some
    &&& forall|k: Seq<char>| k != "mcp_servers"@ ==> #[trigger] item_opt(now, k) == item_opt(was, k)
    &&& forall|k: Seq<char>|
        k != "docli"@ ==> #[trigger] item_opt(item_opt(now, "mcp_servers"@), k) == item_opt(
            item_opt(was, "mcp_servers"@),
            k,
        )
    &&& item_opt(item_opt(now, "mcp_servers"@), "docli"@) matches Some(entry) && is_codex_entry(
        entry,
        url,
    )
}

/// Whatever was written, the entry is found again.
proof fn lemma_entry_is_found_again(out: Seq<char>, url: Seq<char>)
    requires
        item_opt(item_opt(parsed_toml(trim_of(out)), "mcp_servers"@), "docli"@) matches Some(entry)
            && is_codex_entry(entry, url),
    ensures
        merge_codex_of(Some(out), url) == MergeVal::AlreadyConfigured(true),
{
    assert(codex_text(Some(out)) =~= trim_of(out)) by {
        reveal_strlit("");
    }
}

/// What a document holds once the entry was written, and that it prints as it is.
proof fn lemma_entry_written(
    old: Map<Seq<char>, TomlVal>,
    now: Map<Seq<char>, TomlVal>,
    steps: Seq<TomlStep>,
    url: Seq<char>,
)
    requires
        has_outer(now, "mcp_servers"@),
        inner_item(now, "mcp_servers"@, "docli"@) matches Some(entry) && is_codex_entry(entry, url),
        forall|k: Seq<char>| k != "mcp_servers"@ ==> #[trigger] item_opt(Some(TomlVal::Table(now)), k)
            == item_opt(Some(TomlVal::Table(old)), k),
        forall|k: Seq<char>|
            k != "docli"@ ==> #[trigger] inner_item(now, "mcp_servers"@, k) == inner_item(
                old,
                "mcp_servers"@,
                k,
            ),
        forall|i: int|
            0 <= i < steps.len() ==> match #[trigger] steps[i] {
                TomlStep::Cleared(outer, inner) => outer == "mcp_servers"@ && inner == "docli"@,
                TomlStep::Put(outer, inner) => outer == "mcp_servers"@ && inner == "docli"@,
                TomlStep::Started(outer) => outer == "mcp_servers"@,
                _ => true,
            },
    ensures
        is_filled(steps, now),
        entry_alone_changed(Some(TomlVal::Table(now)), Some(TomlVal::Table(old)), url),
{
    let entry = inner_item(now, "mcp_servers"@, "docli"@)->0;
    assert(table_like(entry)->0.dom().contains("url"@));
    assert(has_items(Some(entry)));
    assert(table_like(now["mcp_servers"@])->0.dom().contains("docli"@));
    assert(has_items(item(TomlVal::Table(now), "mcp_servers"@)));
    assert forall|k: Seq<char>| k != "docli"@ implies #[trigger] item_opt(
        item_opt(Some(TomlVal::Table(now)), "mcp_servers"@),
        k,
    ) == item_opt(item_opt(Some(TomlVal::Table(old)), "mcp_servers"@), k) by {
        assert(inner_item(now, "mcp_servers"@, k) == inner_item(old, "mcp_servers"@, k));
    }
}

/// Write the entry into a document in the way that was decided on, and print the document.
fn write_codex(d: toml_edit::DocumentMut, step: &CodexStep, url: &str) -> (r: String)
    requires
        !(*step is Done),
        doc_steps(d).len() == 1,
        doc_steps(d)[0] is Parsed,
        ({
            let servers = item(TomlVal::Table(doc_items(d)), "mcp_servers"@);
            let entry = item_opt(servers, "docli"@);
            &&& *step is Refill ==> entry is Some && entry->0 is Table
            &&& *step is Replace ==> entry is Some
            &&& *step is Add ==> servers is Some && table_like(servers->0) is Some && entry is None
            &&& *step is Start ==> servers is None
        }),
    ensures
        ({
            let texts = codex_texts(doc_steps(d)[0]->Parsed_0, url@);
            r@ == match *step {
                CodexStep::Refill => texts.refilled,
                CodexStep::Replace => texts.replaced,
                CodexStep::Add => texts.added,
                _ => texts.started,
            }
        }),
        entry_alone_changed(parsed_toml(r@), Some(TomlVal::Table(doc_items(d))), url@),
        parsed_toml(trim_of(r@)) == parsed_toml(r@),
{
    let mut doc = d;
    let ghost old = doc_items(d);
    match step {
        CodexStep::Refill => {
            clear_table(&mut doc, "mcp_servers", "docli");
        },
        CodexStep::Replace => {
            bare_key(&mut doc, "mcp_servers", "docli");
            put_table(&mut doc, "mcp_servers", "docli");
        },
        CodexStep::Add => {
            put_table(&mut doc, "mcp_servers", "docli");
        },
        _ => {
            start_table(&mut doc, "mcp_servers");
            imply_table(&mut doc, "mcp_servers");
            put_table(&mut doc, "mcp_servers", "docli");
        },
    }
    let ghost mid = doc_items(doc);
    set_text(&mut doc, "mcp_servers", "docli", "url", url);
    let ghost now = doc_items(doc);
    proof {
        let text = doc_steps(d)[0]->Parsed_0;
        assert(doc_steps(d) =~= seq![TomlStep::Parsed(text)]);
        let entry = inner_item(now, "mcp_servers"@, "docli"@)->0;
        assert(table_like(entry)->0 =~= one_text("url"@, url@));
        lemma_entry_written(old, now, doc_steps(doc), url@);
    }
    print_document(&doc)
}

/// `[mcp_servers.docli]` with `url` as its one key, everything else in the file kept. Whatever
/// was written, a second merge finds the entry as it would write it.
pub fn merge_codex_toml(existing: Option<&str>, url: &str) -> (r: MergeOutcome)
    ensures
        r.view() == merge_codex_of(opt_ref(existing), url@),
        r.view() matches MergeVal::Write(out) ==> {
            &&& entry_alone_changed(
                parsed_toml(out),
                parsed_toml(codex_text(opt_ref(existing))),
                url@,
            )
            &&& merge_codex_of(Some(out), url@) == MergeVal::AlreadyConfigured(true)
        },
{
    let text: String = match nonblank(existing) {
        Some(t) => t,
        None => "".to_owned(),
    };
    let ghost texts = codex_texts(text@, url@);
    let parsed = parse_document(text.as_str());
    let doc: Option<Toml> = match &parsed {
        Some(d) => Some(document_items(d)),
        None => None,
    };
    let step = codex_step(&doc, url);
    assert(codex_of(opt_toml(doc), url@, texts) == merge_codex_of(opt_ref(existing), url@));
    match step {
        CodexStep::Done(o) => o,
        other => match parsed {
            Some(d) => {
                let out = write_codex(d, &other, url);
                proof {
                    lemma_entry_is_found_again(out@, url@);
                }
                MergeOutcome::Write(out)
            },
            None => {
                assert(false);
                MergeOutcome::Occupied("does not parse as TOML".to_owned())
            },
        },
    }
}

/// The outcome of a TOML merge into a file that may be missing.
pub open spec fn merge_codex_of(existing: Option<Seq<char>>, url: Seq<char>) -> MergeVal {
    codex_of(
        parsed_toml(codex_text(existing)),
        url,
        codex_texts(codex_text(existing), url),
    )
}

impl AgentDef {
    /// The project-relative file this agent's entry is written to.
    pub fn config_path(&self) -> (r: Option<&'static str>)
        ensures
            r == config_path_of(*self),
    {
        match self.adapter {
            McpAdapter::Json { path, .. } => Some(path),
            McpAdapter::CodexToml { path } => Some(path),
            McpAdapter::Print => None,
        }
    }
}

pub open spec fn config_path_of(d: AgentDef) -> Option<&'static str> {
    match d.adapter {
        McpAdapter::Json { path, .. } => Some(path),
        McpAdapter::CodexToml { path } => Some(path),
        McpAdapter::Print => None,
    }
}

/// The new file of the one agent whose files carry a schema line.
pub open spec fn opencode_fresh(entry: Seq<char>) -> Seq<char> {
    "{\n  \"$schema\": \"https://opencode.ai/config.json\",\n  \"mcp\": {\n    \"docli\": "@
        + entry + "\n  }\n}\n"@
}

/// What an agent's adapter makes of its file: the path and the outcome, `None` for an agent that
/// only gets a snippet.
pub open spec fn merge_for_of(d: AgentDef, existing: Option<Seq<char>>, url: Seq<char>) -> Option<
    (Seq<char>, MergeVal),
> {
    match d.adapter {
        McpAdapter::Json { path, top_key, entry_shape } => {
            let entry = printed_json(entry_of(entry_shape, url));
            if d.key@ == "opencode"@ && nonblank_of(existing) is None {
                Some((path@, MergeVal::Write(opencode_fresh(entry))))
            } else {
                Some((path@, merge_json_of(existing, top_key@, entry)))
            }
        },
        McpAdapter::CodexToml { path } => Some((path@, merge_codex_of(existing, url))),
        McpAdapter::Print => None,
    }
}

/// The agent's key stands between quotes as it is, and is the one of the file with a schema line
/// where that is the file.
pub open spec fn merges_once(d: AgentDef) -> bool {
    match d.adapter {
        McpAdapter::Json { top_key, .. } => is_bare_key(top_key@) && (d.key@ == "opencode"@
            ==> top_key@ == "mcp"@),
        _ => true,
    }
}

/// A new file with a schema line is, but for the line feed at its end, an object in an object with
/// a text before it.
proof fn lemma_opencode_fresh(entry: Seq<char>)
    ensures
        nonblank_of(Some(opencode_fresh(entry))) == Some(
            noted_text(
                "\n  "@,
                "$schema"@,
                "https://opencode.ai/config.json"@,
                one_member_text(
                    "\n  "@,
                    "mcp"@,
                    one_member_text("\n    "@, "docli"@, entry, "\n  "@),
                    "\n"@,
                ),
            ),
        ),
        is_bare_key("$schema"@) && is_bare_key("https://opencode.ai/config.json"@) && is_bare_key(
            "mcp"@,
        ),
        "$schema"@ != "mcp"@,
{
    reveal_strlit(
        "{\n  \"$schema\": \"https://opencode.ai/config.json\",\n  \"mcp\": {\n    \"docli\": ",
    );
    reveal_strlit("https://opencode.ai/config.json");
    reveal_strlit("$schema");
    reveal_strlit("mcp");
    reveal_strlit("\n  }\n}\n");
    reveal_strlit("{");
    reveal_strlit("}");
    reveal_strlit("\"");
    reveal_strlit("\": ");
    reveal_strlit("docli");
    reveal_strlit("\n  ");
    reveal_strlit("\n    ");
    reveal_strlit("\n");
    reveal_strlit(",");
    let t = noted_text(
        "\n  "@,
        "$schema"@,
        "https://opencode.ai/config.json"@,
        one_member_text(
            "\n  "@,
            "mcp"@,
            one_member_text("\n    "@, "docli"@, entry, "\n  "@),
            "\n"@,
        ),
    );
    assert("$schema"@[0] == '$' && "mcp"@[0] == 'm');
    assert(opencode_fresh(entry) =~= t.push('\n'));
    lemma_line_ended(t);
}

/// A second merge into a new file with a schema line finds the entry.
proof fn lemma_opencode_once(entry: Seq<char>, value: JsonVal)
    requires
        parsed_json(entry) == Some(value),
        wraps(entry, Some(value)),
        nests_within(entry, 125),
    ensures
        merge_json_of(Some(opencode_fresh(entry)), "mcp"@, entry) == MergeVal::AlreadyConfigured(
            true,
        ),
{
    lemma_opencode_fresh(entry);
    lemma_fresh_file("mcp"@, entry);
    reveal_with_fuel(lookup, 2);
    let t = nonblank_of(Some(opencode_fresh(entry)))->0;
    let inner = JsonVal::Object(seq![("docli"@, value)]);
    let old = JsonVal::Object(seq![("mcp"@, inner)]);
    let now = parsed_json(t);
    assert(now is Some && with_member(
        now->0,
        "$schema"@,
        JsonVal::Text("https://opencode.ai/config.json"@),
        old,
    ));
    assert(member(now->0, "mcp"@) == member(old, "mcp"@));
    assert(member(old, "mcp"@) == Some(inner));
    assert(member(inner, "docli"@) == Some(value));
}

/// Merge the connection into one agent's file. A second merge finds the entry.
pub fn merge_for(def: &AgentDef, existing: Option<&str>, url: &str) -> (r: Option<
    (String, MergeOutcome),
>)
    ensures
        match r {
            Some(p) => merge_for_of(*def, opt_ref(existing), url@) == Some((p.0@, p.1.view())),
            None => merge_for_of(*def, opt_ref(existing), url@) is None,
        },
        merges_once(*def) ==> match r {
            Some((path, MergeOutcome::Write(out))) => merge_for_of(*def, Some(out@), url@) == Some(
                (path@, MergeVal::AlreadyConfigured(true)),
            ),
            _ => true,
        },
{
    match def.adapter {
        McpAdapter::Json { path, top_key, entry_shape } => {
            let entry = entry_shape.entry(url);
            proof {
                lemma_entry_is_plain(entry_shape, url@);
            }
            if same(def.key, "opencode") && nonblank(existing).is_none() {
                proof {
                    lemma_opencode_once(entry@, entry_of(entry_shape, url@));
                    lemma_opencode_fresh(entry@);
                }
                return Some(
                    (
                        path.to_owned(),
                        MergeOutcome::Write(
                            crate::text::cat3(
                                "{\n  \"$schema\": \"https://opencode.ai/config.json\",\n  \"mcp\": {\n    \"docli\": ",
                                entry.as_str(),
                                "\n  }\n}\n",
                            ),
                        ),
                    ),
                );
            }
            Some((path.to_owned(), merge_json(existing, top_key, entry.as_str())))
        },
        McpAdapter::CodexToml { path } => Some((path.to_owned(), merge_codex_toml(existing, url))),
        McpAdapter::Print => None,
    }
}

/// A URL that the server serves MCP on: its origin, then the bare path or a labeled one.
pub open spec fn is_mcp_route(url: Seq<char>, server: Seq<char>) -> bool {
    match after_prefix(url, server) {
        None => false,
        Some(path) => path == MCP_BARE_PATH@ || match after_prefix(path, MCP_LABEL_PATH_PREFIX@) {
            Some(label) => label.len() > 0 && is_label(label),
            None => false,
        },
    }
}

/// Is `url` the bare or a labeled MCP route of `server`, exactly?
pub fn mcp_route(url: &str, server: &str) -> (r: bool)
    ensures
        r == is_mcp_route(url@, server@),
{
    match strip_prefix(url, server) {
        None => false,
        Some(path) => {
            if same(path.as_str(), MCP_BARE_PATH) {
                return true;
            }
            match strip_prefix(path.as_str(), MCP_LABEL_PATH_PREFIX) {
                Some(label) => !label.as_str().is_empty() && valid_label(label.as_str()),
                None => false,
            }
        },
    }
}

/// The connections that are wired are routes of their server.
pub proof fn wired_connections_are_routes(server: Seq<char>, label: Seq<char>)
    ensures
        is_mcp_route(server + MCP_BARE_PATH@, server),
        label.len() > 0 && is_label(label) ==> is_mcp_route(
            server + MCP_LABEL_PATH_PREFIX@ + label,
            server,
        ),
{
    let bare = server + MCP_BARE_PATH@;
    assert(bare.subrange(0, server.len() as int) =~= server);
    assert(bare.subrange(server.len() as int, bare.len() as int) =~= MCP_BARE_PATH@);
    let full = server + MCP_LABEL_PATH_PREFIX@ + label;
    let path = MCP_LABEL_PATH_PREFIX@ + label;
    assert(full.subrange(0, server.len() as int) =~= server);
    assert(full.subrange(server.len() as int, full.len() as int) =~= path);
    assert(path.subrange(0, MCP_LABEL_PATH_PREFIX@.len() as int) =~= MCP_LABEL_PATH_PREFIX@);
    assert(path.subrange(MCP_LABEL_PATH_PREFIX@.len() as int, path.len() as int) =~= label);
}

/// The `docli` entry under `top_key` works for this shape and points at `server`.
pub open spec fn json_points_at(
    root: Option<JsonVal>,
    top_key: Seq<char>,
    shape: JsonShape,
    server: Seq<char>,
) -> bool {
    let entry = member_opt(member_opt(root, top_key), "docli"@);
    let kind = member_opt(entry, "type"@);
    &&& (shape is OpencodeRemote ==> member_opt(entry, "enabled"@) != Some(JsonVal::Bool(false)))
    &&& (shape is TypeHttpUrl ==> kind == Some(JsonVal::Text("http"@)))
    &&& (shape is OpencodeRemote ==> kind == Some(JsonVal::Text("remote"@)))
    &&& match member_opt(entry, url_key_of(shape)) {
        Some(JsonVal::Text(u)) => is_mcp_route(u, server),
        _ => false,
    }
}

/// What is wired is recognised: a configuration that holds the entry of a shape points at the
/// server whose route the entry names.
pub proof fn a_wired_entry_is_recognised(
    root: JsonVal,
    top_key: Seq<char>,
    shape: JsonShape,
    url: Seq<char>,
    server: Seq<char>,
)
    requires
        member_opt(member(root, top_key), "docli"@) == Some(entry_of(shape, url)),
        is_mcp_route(url, server),
    ensures
        json_points_at(Some(root), top_key, shape, server),
{
    reveal_strlit("type");
    reveal_strlit("url");
    reveal_strlit("httpUrl");
    reveal_strlit("enabled");
    reveal_with_fuel(lookup, 4);
    assert("type"@.len() != "url"@.len());
    assert("enabled"@.len() != "url"@.len() && "enabled"@.len() != "type"@.len());
}

fn text_is(v: Option<&Json>, t: &str) -> (r: bool)
    ensures
        r == (opt_json_ref(v) == Some(JsonVal::Text(t@))),
{
    match v {
        Some(Json::Text(s)) => same(s.as_str(), t),
        _ => false,
    }
}

/// Does the entry under `top_key` of a parsed configuration work for this shape and point at
/// `server`?
pub fn json_entry_points_at(
    root: &Option<Json>,
    top_key: &str,
    shape: JsonShape,
    server: &str,
) -> (r: bool)
    ensures
        r == json_points_at(opt_json(*root), top_key@, shape, server@),
{
    let entry: &Json = match root {
        None => {
            return false;
        },
        Some(v) => match v.get(top_key) {
            None => {
                return false;
            },
            Some(servers) => match servers.get("docli") {
                None => {
                    return false;
                },
                Some(e) => e,
            },
        },
    };
    let off: bool = match entry.get("enabled") {
        Some(Json::Bool(b)) => !*b,
        _ => false,
    };
    let fits: bool = match shape {
        JsonShape::TypeHttpUrl => text_is(entry.get("type"), "http"),
        JsonShape::OpencodeRemote => !off && text_is(entry.get("type"), "remote"),
        _ => true,
    };
    let lands: bool = match entry.get(shape.url_key()) {
        Some(Json::Text(u)) => mcp_route(u.as_str(), server),
        _ => false,
    };
    fits && lands
}

/// `mcp_servers.docli.url` of a parsed TOML configuration points at `server`.
pub open spec fn toml_points_at(doc: Option<TomlVal>, server: Seq<char>) -> bool {
    match item_opt(item_opt(item_opt(doc, "mcp_servers"@), "docli"@), "url"@) {
        Some(TomlVal::Text(u)) => is_mcp_route(u, server),
        _ => false,
    }
}

/// Does `mcp_servers.docli.url` of a parsed TOML configuration point at `server`?
pub fn toml_entry_points_at(doc: &Option<Toml>, server: &str) -> (r: bool)
    ensures
        r == toml_points_at(opt_toml(*doc), server@),
{
    match doc {
        None => false,
        Some(d) => match d.get("mcp_servers") {
            None => false,
            Some(s) => match s.get("docli") {
                None => false,
                Some(e) => match e.get("url") {
                    Some(Toml::Text(u)) => mcp_route(u.as_str(), server),
                    _ => false,
                },
            },
        },
    }
}

/// The configuration text of an agent carries a `docli` entry that works and points at
/// `server`.
pub open spec fn points_at(d: AgentDef, body: Seq<char>, server: Seq<char>) -> bool {
    match d.adapter {
        McpAdapter::Json { top_key, entry_shape, .. } => json_points_at(
            parsed_json(body),
            top_key@,
            entry_shape,
            server,
        ),
        McpAdapter::CodexToml { .. } => toml_points_at(parsed_toml(body), server),
        McpAdapter::Print => false,
    }
}

/// Does this configuration's own `docli` entry point at `server`? A text that does not parse has
/// no entry.
pub fn entry_points_at(def: &AgentDef, body: &str, server: &str) -> (r: bool)
    ensures
        r == points_at(*def, body@, server@),
{
    match def.adapter {
        McpAdapter::Json { top_key, entry_shape, .. } => json_entry_points_at(
            &parse_json(body),
            top_key,
            entry_shape,
            server,
        ),
        McpAdapter::CodexToml { .. } => toml_entry_points_at(&parse_toml(body), server),
        McpAdapter::Print => false,
    }
}

/// The names of the agents, in table order, whose configuration text points at `server`.
pub open spec fn wired(
    rows: Seq<AgentDef>,
    bodies: Seq<Option<Seq<char>>>,
    server: Seq<char>,
) -> Seq<Seq<char>>
    decreases rows.len(),
{
    if rows.len() == 0 {
        Seq::empty()
    } else {
        let n = rows.len() - 1;
        let before = wired(rows.drop_last(), bodies, server);
        if config_path_of(rows[n]) is Some && bodies[n] is Some && points_at(
            rows[n],
            bodies[n]->0,
            server,
        ) {
            before.push(rows[n].display@)
        } else {
            before
        }
    }
}

/// Optional texts of a vector.
pub open spec fn opt_strs(v: Seq<Option<String>>) -> Seq<Option<Seq<char>>> {
    Seq::new(v.len(), |i: int| opt_str(v[i]))
}

/// The agents whose configuration in this project points at `server`. `bodies` holds, for each
/// row of the table, the text of its configuration file where one could be read.
pub fn wired_here(vendor: Vendor, bodies: &Vec<Option<String>>, server: &str) -> (r: Vec<String>)
    requires
        bodies@.len() == agent_rows(vendor).len(),
    ensures
        crate::text::strs(r@) == wired(
            agent_rows(vendor),
            opt_strs(bodies@),
            trim_end_char_of(server@, '/'),
        ),
{
    let needle = trim_end_char(server, '/');
    let rows = agents(vendor);
    let mut out: Vec<String> = Vec::new();
    assert(crate::text::strs(out@) =~= Seq::<Seq<char>>::empty());
    for i in 0..rows.len()
        invariant
            rows@ == agent_rows(vendor),
            bodies@.len() == rows@.len(),
            needle@ == trim_end_char_of(server@, '/'),
            crate::text::strs(out@) == wired(rows@.take(i as int), opt_strs(bodies@), needle@),
    {
        broadcast use crate::text::lemma_strs_push;

        assert(rows@.take(i + 1).drop_last() =~= rows@.take(i as int));
        assert(opt_strs(bodies@)[i as int] == opt_str(bodies@[i as int]));
        let d: AgentDef = rows[i];
        if d.config_path().is_some() {
            if let Some(body) = &bodies[i] {
                if entry_points_at(&d, body.as_str(), needle.as_str()) {
                    out.push(d.display.to_owned());
                }
            }
        }
    }
    assert(rows@.take(rows@.len() as int) =~= rows@);
    out
}

/// What stands around the URL in the snippet of an agent without an adapter: before it, behind
/// it, and whether it stands there as a JSON string.
pub open spec fn print_snippet(key: Seq<char>) -> (Seq<char>, Seq<char>, bool) {
    if key == "qwen"@ {
        (
            ".qwen/settings.json:\n  { \"mcpServers\": { \"docli\": { \"httpUrl\": "@,
            " } } }\n  (httpUrl, not url - url means SSE there)"@,
            true,
        )
    } else if key == "cline"@ {
        (
            "Cline's MCP config is global (the extension's MCP panel / ~/.cline/mcp.json):\n  { \"mcpServers\": { \"docli\": { \"type\": \"streamableHttp\", \"url\": "@,
            " } } }"@,
            true,
        )
    } else if key == "zed"@ {
        (
            "Zed settings.json (project-level placement of context_servers is undocumented - use `zed: open settings`):\n  { \"context_servers\": { \"docli\": { \"source\": \"custom\", \"url\": "@,
            " } } }"@,
            true,
        )
    } else if key == "windsurf"@ {
        (
            "Windsurf's MCP config is global (~/.codeium/windsurf/mcp_config.json):\n  { \"mcpServers\": { \"docli\": { \"serverUrl\": "@,
            " } } }"@,
            true,
        )
    } else if key == "sourcecraft"@ {
        (
            ".codeassistant/mcp.json:\n  { \"mcpServers\": { \"docli\": { \"url\": "@,
            " } } }\n  (docli MCP requires a browser OAuth flow; support for it is unverified in this client - if sign-in fails, use a verified OAuth-capable client)"@,
            true,
        )
    } else if key == "junie"@ {
        (
            ".junie/mcp/mcp.json:\n  { \"mcpServers\": { \"docli\": { \"url\": "@,
            " } } }\n  (docli MCP requires a browser OAuth flow; support for it is unverified in this client - if sign-in fails, use a verified OAuth-capable client)"@,
            true,
        )
    } else if key == "trae"@ {
        (
            ".trae/mcp.json:\n  { \"mcpServers\": { \"docli\": { \"url\": "@,
            " } } }\n  (docli MCP requires a browser OAuth flow; support for it is unverified in this client - if sign-in fails, use a verified OAuth-capable client)"@,
            true,
        )
    } else if key == "amp"@ {
        (
            ".amp/settings.json:\n  { \"amp.mcpServers\": { \"docli\": { \"url\": "@,
            " } } }"@,
            true,
        )
    } else {
        (
            "add a remote MCP server named \"docli\" at "@,
            " in the agent's MCP settings"@,
            false,
        )
    }
}

fn print_snippet_parts(key: &str) -> (r: (&'static str, &'static str, bool))
    ensures
        (r.0@, r.1@, r.2) == print_snippet(key@),
{
    if same(key, "qwen") {
        (
            ".qwen/settings.json:\n  { \"mcpServers\": { \"docli\": { \"httpUrl\": ",
            " } } }\n  (httpUrl, not url - url means SSE there)",
            true,
        )
    } else if same(key, "cline") {
        (
            "Cline's MCP config is global (the extension's MCP panel / ~/.cline/mcp.json):\n  { \"mcpServers\": { \"docli\": { \"type\": \"streamableHttp\", \"url\": ",
            " } } }",
            true,
        )
    } else if same(key, "zed") {
        (
            "Zed settings.json (project-level placement of context_servers is undocumented - use `zed: open settings`):\n  { \"context_servers\": { \"docli\": { \"source\": \"custom\", \"url\": ",
            " } } }",
            true,
        )
    } else if same(key, "windsurf") {
        (
            "Windsurf's MCP config is global (~/.codeium/windsurf/mcp_config.json):\n  { \"mcpServers\": { \"docli\": { \"serverUrl\": ",
            " } } }",
            true,
        )
    } else if same(key, "sourcecraft") {
        (
            ".codeassistant/mcp.json:\n  { \"mcpServers\": { \"docli\": { \"url\": ",
            " } } }\n  (docli MCP requires a browser OAuth flow; support for it is unverified in this client - if sign-in fails, use a verified OAuth-capable client)",
            true,
        )
    } else if same(key, "junie") {
        (
            ".junie/mcp/mcp.json:\n  { \"mcpServers\": { \"docli\": { \"url\": ",
            " } } }\n  (docli MCP requires a browser OAuth flow; support for it is unverified in this client - if sign-in fails, use a verified OAuth-capable client)",
            true,
        )
    } else if same(key, "trae") {
        (
            ".trae/mcp.json:\n  { \"mcpServers\": { \"docli\": { \"url\": ",
            " } } }\n  (docli MCP requires a browser OAuth flow; support for it is unverified in this client - if sign-in fails, use a verified OAuth-capable client)",
            true,
        )
    } else if same(key, "amp") {
        (
            ".amp/settings.json:\n  { \"amp.mcpServers\": { \"docli\": { \"url\": ",
            " } } }",
            true,
        )
    } else {
        ("add a remote MCP server named \"docli\" at ", " in the agent's MCP settings", false)
    }
}

/// The snippet of an agent. A URL inside JSON or TOML is the serializer's string literal; the
/// shell line quotes it.
pub open spec fn snippet_of(d: AgentDef, url: Seq<char>) -> Seq<char> {
    let jurl = printed_json(JsonVal::Text(url));
    match d.adapter {
        McpAdapter::Json { path, top_key, entry_shape } => path@ + ":\n  { \""@ + top_key@
            + "\": { \"docli\": "@ + printed_json(entry_of(entry_shape, url)) + " } }"@,
        McpAdapter::CodexToml { path } => path@ + " (or `codex mcp add docli --url '"@
            + crate::text::replace_char_of(url, '\'', "'\\''"@)
            + "'` in the global config):\n  [mcp_servers.docli]\n  url = "@ + jurl,
        McpAdapter::Print => {
            let p = print_snippet(d.key@);
            p.0 + (if p.2 {
                jurl
            } else {
                url
            }) + p.1
        },
    }
}

/// The copy-and-paste snippet for one agent.
pub fn snippet(def: &AgentDef, url: &str) -> (r: String)
    ensures
        r@ == snippet_of(*def, url@),
{
    match def.adapter {
        McpAdapter::Json { path, top_key, entry_shape } => {
            let entry = entry_shape.entry(url);
            let mut s = crate::text::cat5(
                path,
                ":\n  { \"",
                top_key,
                "\": { \"docli\": ",
                entry.as_str(),
            );
            s.push_str(" } }");
            s
        },
        McpAdapter::CodexToml { path } => {
            let quoted = crate::text::replace_char(url, '\'', "'\\''");
            let jurl = crate::json::json_string(url);
            crate::text::cat5(
                path,
                " (or `codex mcp add docli --url '",
                quoted.as_str(),
                "'` in the global config):\n  [mcp_servers.docli]\n  url = ",
                jurl.as_str(),
            )
        },
        McpAdapter::Print => {
            let p = print_snippet_parts(def.key);
            if p.2 {
                let jurl = crate::json::json_string(url);
                crate::text::cat3(p.0, jurl.as_str(), p.1)
            } else {
                crate::text::cat3(p.0, url, p.1)
            }
        },
    }
}

/// What is to be done for one agent.
#[derive(Debug, PartialEq, Eq)]
pub enum WireStep {
    /// Write the file, then say these lines.
    Write { rel: String, content: String, then_say: Vec<Notice> },
    /// Write nothing and say this.
    Say(Notice),
}

/// What a [`WireStep`] asks for.
pub enum WireVal {
    Write(Seq<char>, Seq<char>, Seq<NoticeVal>),
    Say(NoticeVal),
}

impl WireStep {
    pub open spec fn view(&self) -> WireVal {
        match self {
            WireStep::Write { rel, content, then_say } => WireVal::Write(
                rel@,
                content@,
                notices(then_say@),
            ),
            WireStep::Say(n) => WireVal::Say(n.view()),
        }
    }
}

/// The step for one agent, given what its merge decided.
pub open spec fn wire_step_of(
    d: AgentDef,
    merged: Option<(Seq<char>, MergeVal)>,
    url: Seq<char>,
) -> WireVal {
    match merged {
        None => WireVal::Say(
            NoticeVal::Line("  "@ + d.display@ + "\n    "@ + snippet_of(d, url)),
        ),
        Some(m) => match m.1 {
            MergeVal::Write(content) => {
                let done = NoticeVal::Done(d.display@ + ": wrote "@ + m.0);
                let trust = NoticeVal::Detail(
                    "Codex reads project configuration only in trusted repositories - approve the repository on first run."@,
                );
                WireVal::Write(
                    m.0,
                    content,
                    if d.key@ == "codex"@ {
                        seq![done, trust]
                    } else {
                        seq![done]
                    },
                )
            },
            MergeVal::AlreadyConfigured(true) => WireVal::Say(
                NoticeVal::Done(d.display@ + ": "@ + m.0 + " already configured"@),
            ),
            MergeVal::AlreadyConfigured(false) => WireVal::Say(
                NoticeVal::Warn(
                    d.display@ + ": "@ + m.0
                        + " already has a \"docli\" entry; it was left unchanged. To update it by hand:\n    "@
                        + snippet_of(d, url),
                ),
            ),
            MergeVal::Occupied(reason) => WireVal::Say(
                NoticeVal::Warn(
                    d.display@ + ": "@ + m.0 + " - "@ + reason + "; add it by hand:\n    "@
                        + snippet_of(d, url),
                ),
            ),
        },
    }
}

/// The merge of a file, or the reason why its text cannot be taken.
pub open spec fn wire_merge(d: AgentDef, read: Result<Option<Seq<char>>, Seq<char>>, url: Seq<char>) -> Option<
    (Seq<char>, MergeVal),
> {
    match read {
        Ok(existing) => merge_for_of(d, existing, url),
        Err(reason) => match config_path_of(d) {
            Some(path) => Some((path@, MergeVal::Occupied(reason))),
            None => None,
        },
    }
}

/// Decide what to do for one agent. `read` is the text of its file, `None` where there is no
/// file, or why the text of the file that is there cannot be taken.
pub fn wire_one(def: &AgentDef, read: &Result<Option<String>, String>, url: &str) -> (r: WireStep)
    ensures
        r.view() == wire_step_of(
            *def,
            wire_merge(
                *def,
                (match *read {
                    Ok(e) => Ok(opt_str(e)),
                    Err(m) => Err(m@),
                }),
                url@,
            ),
            url@,
        ),
{
    let merged: Option<(String, MergeOutcome)> = match read {
        Ok(Some(s)) => merge_for(def, Some(s.as_str()), url),
        Ok(None) => merge_for(def, None, url),
        Err(reason) => match def.config_path() {
            Some(path) => Some((path.to_owned(), MergeOutcome::Occupied(reason.clone()))),
            None => None,
        },
    };
    match merged {
        None => {
            let s = snippet(def, url);
            let mut line = "  ".to_owned();
            line.push_str(def.display);
            line.push_str("\n    ");
            line.push_str(s.as_str());
            WireStep::Say(Notice::Line(line))
        },
        Some((rel, outcome)) => match outcome {
            MergeOutcome::Write(content) => {
                let mut say: Vec<Notice> = Vec::new();
                say.push(Notice::Done(crate::text::cat3(def.display, ": wrote ", rel.as_str())));
                if same(def.key, "codex") {
                    say.push(
                        Notice::Detail(
                            "Codex reads project configuration only in trusted repositories - approve the repository on first run.".to_owned(),
                        ),
                    );
                }
                let step = WireStep::Write { rel, content, then_say: say };
                assert(step.view()->Write_2 =~= wire_step_of(
                    *def,
                    Some((step.view()->Write_0, MergeVal::Write(step.view()->Write_1))),
                    url@,
                )->Write_2);
                step
            },
            MergeOutcome::AlreadyConfigured { same: true } => {
                let mut line = crate::text::cat3(def.display, ": ", rel.as_str());
                line.push_str(" already configured");
                WireStep::Say(Notice::Done(line))
            },
            MergeOutcome::AlreadyConfigured { same: false } => {
                let s = snippet(def, url);
                WireStep::Say(
                    Notice::Warn(
                        crate::text::cat5(
                            def.display,
                            ": ",
                            rel.as_str(),
                            " already has a \"docli\" entry; it was left unchanged. To update it by hand:\n    ",
                            s.as_str(),
                        ),
                    ),
                )
            },
            MergeOutcome::Occupied(reason) => {
                let s = snippet(def, url);
                let mut line = crate::text::cat5(
                    def.display,
                    ": ",
                    rel.as_str(),
                    " - ",
                    reason.as_str(),
                );
                line.push_str("; add it by hand:\n    ");
                line.push_str(s.as_str());
                WireStep::Say(Notice::Warn(line))
            },
        },
    }
}

/// The lines said before any agent is wired.
pub open spec fn wire_intro(url: Seq<char>, labeled: bool) -> Seq<NoticeVal> {
    let head = seq![
        NoticeVal::Heading("This project's MCP connection"@),
        NoticeVal::Line("  "@ + url),
        NoticeVal::Detail(
            "Each agent authorizes itself through browser OAuth on first connection; docli writes no credential into project files."@,
        ),
    ];
    if labeled {
        head.push(
            NoticeVal::Detail(
                "If an agent rejects this labeled URL with invalid_token, re-run with --mcp-bare."@,
            ),
        )
    } else {
        head
    }
}

/// What is said before the selected agents are wired to `url`; each of them then takes its
/// [`wire_one`] step, whatever became of the others.
pub fn wire(url: &str, labeled: bool) -> (r: Vec<Notice>)
    ensures
        notices(r@) == wire_intro(url@, labeled),
{
    let mut out: Vec<Notice> = Vec::new();
    out.push(Notice::Heading("This project's MCP connection".to_owned()));
    out.push(Notice::Line(crate::text::cat2("  ", url)));
    out.push(
        Notice::Detail(
            "Each agent authorizes itself through browser OAuth on first connection; docli writes no credential into project files.".to_owned(),
        ),
    );
    if labeled {
        out.push(
            Notice::Detail(
                "If an agent rejects this labeled URL with invalid_token, re-run with --mcp-bare.".to_owned(),
            ),
        );
    }
    assert(notices(out@) =~= wire_intro(url@, labeled));
    out
}

/// What is said of an agent whose step failed.
pub fn wire_failed(def: &AgentDef, why: &str, url: &str) -> (r: Notice)
    ensures
        r.view() == NoticeVal::Refuse(
            def.display@ + ": failed ("@ + why@ + "). Add it by hand:\n    "@ + snippet_of(
                *def,
                url@,
            ),
        ),
{
    let s = snippet(def, url);
    Notice::Refuse(
        crate::text::cat5(
            def.display,
            ": failed (",
            why,
            "). Add it by hand:\n    ",
            s.as_str(),
        ),
    )
}

/// A name of the shape in which a configuration's temporary file is written: sixteen lowercase
/// hexadecimal digits between a prefix and a suffix.
pub open spec fn is_temp_name(name: Seq<char>) -> bool {
    match after_prefix(name, ".docli-cfg-"@) {
        Some(rest) => match crate::text::before_suffix(rest, ".tmp"@) {
            Some(h) => h.len() == 16 && forall|i: int|
                0 <= i < h.len() ==> {
                    let c = #[trigger] h[i];
                    ('0' <= c <= '9') || ('a' <= c <= 'f')
                },
            None => false,
        },
        None => false,
    }
}

/// Can this name have been given to a temporary file by the writer?
pub fn is_cfg_temp(name: &str) -> (r: bool)
    ensures
        r == is_temp_name(name@),
{
    let rest: String = match strip_prefix(name, ".docli-cfg-") {
        Some(x) => x,
        None => {
            return false;
        },
    };
    let h: Vec<char> = match crate::text::strip_suffix(rest.as_str(), ".tmp") {
        Some(x) => chars_of(x.as_str()),
        None => {
            return false;
        },
    };
    if h.len() != 16 {
        return false;
    }
    for i in 0..h.len()
        invariant
            after_prefix(name@, ".docli-cfg-"@) is Some,
            crate::text::before_suffix(after_prefix(name@, ".docli-cfg-"@)->0, ".tmp"@) == Some(h@),
            forall|j: int|
                0 <= j < i ==> {
                    let c = #[trigger] h@[j];
                    ('0' <= c <= '9') || ('a' <= c <= 'f')
                },
    {
        let c: char = h[i];
        if !(('0' <= c && c <= '9') || ('a' <= c && c <= 'f')) {
            assert(h@[i as int] == c);
            return false;
        }
    }
    true
}

/// The name of the temporary file for eight random bytes.
pub fn cfg_temp_name(suffix: &[u8]) -> (r: String)
    requires
        suffix@.len() == 8,
    ensures
        r@ == ".docli-cfg-"@ + crate::digest::hex_of(suffix@) + ".tmp"@,
        is_temp_name(r@),
{
    let h = crate::digest::hex_encode(suffix);
    let out = crate::text::cat3(".docli-cfg-", h.as_str(), ".tmp");
    proof {
        crate::digest::lemma_hex_digits(suffix@);
        reveal_strlit(".docli-cfg-");
        reveal_strlit(".tmp");
        let p = ".docli-cfg-"@;
        let s = ".tmp"@;
        assert(out@.subrange(0, p.len() as int) =~= p);
        let rest = out@.subrange(p.len() as int, out@.len() as int);
        assert(rest =~= h@ + s);
        assert(rest.subrange(rest.len() - s.len(), rest.len() as int) =~= s);
        assert(rest.subrange(0, rest.len() - s.len()) =~= h@);
    }
    out
}

/// A frontmatter block with one more line at its end; a text without such a block stays.
pub open spec fn frontmatter_with(skill: Seq<char>, line: Seq<char>) -> Seq<char> {
    match after_prefix(skill, "---\n"@) {
        None => skill,
        Some(rest) => match find_sub(rest, "\n---"@) {
            None => skill,
            Some(end) => "---\n"@ + rest.subrange(0, end) + "\n"@ + line + "---"@ + rest.subrange(
                end + 4,
                rest.len() as int,
            ),
        },
    }
}

/// The values as JSON string literals.
pub open spec fn literals(values: Seq<Seq<char>>) -> Seq<Seq<char>> {
    Seq::new(values.len(), |i: int| printed_json(JsonVal::Text(values[i])))
}

/// Add `key: [values]` to the frontmatter of a text, the body untouched.
pub fn inject_frontmatter(skill_md: &str, key: &str, values: &Vec<String>) -> (r: String)
    ensures
        r@ == frontmatter_with(
            skill_md@,
            key@ + ": ["@ + crate::text::join_of(
                literals(crate::text::strs(values@)),
                ", "@,
            ) + "]\n"@,
        ),
{
    let mut rendered: Vec<String> = Vec::new();
    for i in 0..values.len()
        invariant
            crate::text::strs(rendered@) == literals(crate::text::strs(values@)).take(i as int),
    {
        broadcast use crate::text::lemma_strs_push;

        rendered.push(crate::json::json_string(values[i].as_str()));
        assert(crate::text::strs(rendered@) =~= literals(crate::text::strs(values@)).take(i + 1));
    }
    assert(literals(crate::text::strs(values@)).take(values@.len() as int) =~= literals(
        crate::text::strs(values@),
    ));
    let joined = crate::text::join(&rendered, ", ");
    let mut line = crate::text::cat3(key, ": [", joined.as_str());
    line.push_str("]\n");
    let rest: Vec<char> = match strip_prefix(skill_md, "---\n") {
        None => {
            return skill_md.to_owned();
        },
        Some(x) => chars_of(x.as_str()),
    };
    let mark = chars_of("\n---");
    proof {
        reveal_strlit("\n---");
    }
    match find_in(&rest, &mark) {
        None => skill_md.to_owned(),
        Some(end) => {
            let n: usize = rest.len();
            assert(end + 4 <= n);
            let head = crate::text::string_between(&rest, 0, end);
            let tail = crate::text::string_between(&rest, end + 4, n);
            let mut out = crate::text::cat5("---\n", head.as_str(), "\n", line.as_str(), "---");
            out.push_str(tail.as_str());
            out
        },
    }
}

/// The skill as it is written for one agent.
pub open spec fn skill_body(skill: Seq<char>, globs: Seq<Seq<char>>) -> Seq<char> {
    if globs.len() == 0 {
        skill
    } else {
        frontmatter_with(
            skill,
            "paths"@ + ": ["@ + crate::text::join_of(literals(globs), ", "@) + "]\n"@,
        )
    }
}

/// The skill with the activation globs in its frontmatter, or as it is where there are none.
pub fn copy_skill(skill_md: &str, globs: &Vec<String>) -> (r: String)
    ensures
        r@ == skill_body(skill_md@, crate::text::strs(globs@)),
{
    if globs.len() == 0 {
        skill_md.to_owned()
    } else {
        inject_frontmatter(skill_md, "paths", globs)
    }
}

/// A copy of the skill for one agent.
#[derive(Debug, PartialEq, Eq)]
pub struct SkillCopy {
    /// How the picker lists the agent.
    pub display: &'static str,
    /// The directory that the copy goes to.
    pub dir: &'static str,
    pub text: String,
}

/// What a [`SkillCopy`] says.
pub struct CopyVal {
    pub display: Seq<char>,
    pub dir: Seq<char>,
    pub text: Seq<char>,
}

pub open spec fn copies_of(v: Seq<SkillCopy>) -> Seq<CopyVal> {
    Seq::new(v.len(), |i: int| CopyVal { display: v[i].display@, dir: v[i].dir@, text: v[i].text@ })
}

/// The copies of the skill, in the order of the selection.
pub open spec fn skill_copies(
    selected: Seq<AgentDef>,
    skill: Seq<char>,
    globs: Seq<Seq<char>>,
) -> Seq<CopyVal>
    decreases selected.len(),
{
    if selected.len() == 0 {
        Seq::empty()
    } else {
        let d = selected.last();
        let before = skill_copies(selected.drop_last(), skill, globs);
        match d.skill_copy_dir {
            None => before,
            Some(dir) => before.push(
                CopyVal {
                    display: d.display@,
                    dir: dir@,
                    text: if d.accepts_claude_frontmatter {
                        skill_body(skill, globs)
                    } else {
                        skill
                    },
                },
            ),
        }
    }
}

/// The copies of the skill that the selected agents need: only an agent whose frontmatter admits
/// the globs gets them.
pub fn install_skills(selected: &Vec<AgentDef>, skill_md: &str, globs: &Vec<String>) -> (r: Vec<
    SkillCopy,
>)
    ensures
        copies_of(r@) == skill_copies(selected@, skill_md@, crate::text::strs(globs@)),
{
    let mut out: Vec<SkillCopy> = Vec::new();
    assert(copies_of(out@) =~= Seq::<CopyVal>::empty());
    for i in 0..selected.len()
        invariant
            copies_of(out@) == skill_copies(
                selected@.take(i as int),
                skill_md@,
                crate::text::strs(globs@),
            ),
    {
        assert(selected@.take(i + 1).drop_last() =~= selected@.take(i as int));
        let ghost before = out@;
        let d: AgentDef = selected[i];
        if let Some(dir) = d.skill_copy_dir {
            let text = if d.accepts_claude_frontmatter {
                copy_skill(skill_md, globs)
            } else {
                skill_md.to_owned()
            };
            out.push(SkillCopy { display: d.display, dir, text });
            assert(copies_of(out@) =~= copies_of(before).push(
                CopyVal { display: d.display@, dir: dir@, text: out@.last().text@ },
            ));
        }
    }
    assert(selected@.take(selected@.len() as int) =~= selected@);
    out
}

/// What is said of a copy that was written, or could not be.
pub fn skill_copied(copy: &SkillCopy, failed: Option<&str>) -> (r: Notice)
    ensures
        r.view() == (match failed {
            None => NoticeVal::Detail("wrote "@ + copy.dir@ + "/SKILL.md"@),
            Some(why) => NoticeVal::Refuse(
                copy.display@ + ": could not write "@ + copy.dir@ + "/SKILL.md ("@ + why@
                    + ") - the mirror contract is not installed for it; copy the file by hand or re-run `docli init`"@,
            ),
        }),
{
    match failed {
        None => Notice::Detail(cat3("wrote ", copy.dir, "/SKILL.md")),
        Some(why) => {
            let head = cat4(copy.display, ": could not write ", copy.dir, "/SKILL.md (");
            Notice::Refuse(
                cat3(
                    head.as_str(),
                    why,
                    ") - the mirror contract is not installed for it; copy the file by hand or re-run `docli init`",
                ),
            )
        },
    }
}

/// A character that means something in a glob.
pub open spec fn is_meta(c: char) -> bool {
    c == '*' || c == '?' || c == '[' || c == ']' || c == '{' || c == '}' || c == '!'
}

/// The text holds a character that means something in a glob.
pub open spec fn has_meta(s: Seq<char>) -> bool {
    exists|i: int| 0 <= i < s.len() && is_meta(#[trigger] s[i])
}

fn contains_meta(s: &str) -> (r: bool)
    ensures
        r == has_meta(s@),
{
    let v = chars_of(s);
    for i in 0..v.len()
        invariant
            v@ == s@,
            forall|j: int| 0 <= j < i ==> !is_meta(#[trigger] s@[j]),
    {
        let c: char = v[i];
        if c == '*' || c == '?' || c == '[' || c == ']' || c == '{' || c == '}' || c == '!' {
            assert(is_meta(s@[i as int]));
            return true;
        }
    }
    false
}

/// The path of a mount relative to the project, where it has one.
pub open spec fn mount_rel(
    root: Seq<ComponentVal>,
    dir: Seq<char>,
    parts: Seq<ComponentVal>,
) -> Option<Seq<char>> {
    if parts.len() > 0 && parts[0] is Root {
        below(root, mount_path(root, parts))
    } else {
        Some(trim_end_char_of(dir, '/'))
    }
}

/// The glob that a mount gives. One outside the project gives none, and neither does one whose
/// path would not be read literally.
pub open spec fn glob_of(root: Seq<ComponentVal>, dir: Seq<char>, parts: Seq<ComponentVal>) -> Option<
    Seq<char>,
> {
    match mount_rel(root, dir, parts) {
        None => None,
        Some(rel) => {
            let slashed = replace_char_of(rel, '\\', "/"@);
            if rel.len() == 0 || has_meta(slashed) {
                None
            } else {
                Some(slashed + "/**"@)
            }
        },
    }
}

fn mount_glob(root: &Vec<Component>, dir: &str, parts: &Vec<Component>) -> (r: Option<String>)
    ensures
        opt_str(r) == glob_of(components_of(root@), dir@, components_of(parts@)),
{
    let absolute: bool = if parts.len() > 0 {
        assert(components_of(parts@)[0] == parts@[0].view());
        match &parts[0] {
            Component::Root(_) => true,
            _ => false,
        }
    } else {
        false
    };
    let rel: String = if absolute {
        let abs = mount_abs(root, parts);
        match path_below(root, &abs) {
            Some(r) => r,
            None => {
                return None;
            },
        }
    } else {
        trim_end_char(dir, '/')
    };
    if rel.as_str().is_empty() {
        return None;
    }
    let slashed = replace_char(rel.as_str(), '\\', "/");
    if contains_meta(slashed.as_str()) {
        return None;
    }
    Some(crate::text::cat2(slashed.as_str(), "/**"))
}

/// The globs of the first `k` mounts, each once.
pub open spec fn globs_of(
    root: Seq<ComponentVal>,
    mounts: Seq<Mount>,
    parts: Seq<Vec<Component>>,
    k: int,
) -> Seq<Seq<char>>
    decreases k,
{
    if k <= 0 {
        Seq::empty()
    } else {
        let before = globs_of(root, mounts, parts, k - 1);
        match glob_of(root, mounts[k - 1].dir@, components_of(parts[k - 1]@)) {
            Some(g) => if before.contains(g) {
                before
            } else {
                before.push(g)
            },
            None => before,
        }
    }
}

/// The globs, relative to the project, under which its mirrors lie. `parts` holds the directory
/// of each mount as components.
pub fn skill_globs(
    project_root: &Vec<Component>,
    mounts: &Vec<Mount>,
    parts: &Vec<Vec<Component>>,
) -> (r: Vec<String>)
    requires
        parts@.len() == mounts@.len(),
    ensures
        crate::text::strs(r@) == globs_of(
            components_of(project_root@),
            mounts@,
            parts@,
            mounts@.len() as int,
        ),
{
    broadcast use crate::text::lemma_strs_push;

    let mut out: Vec<String> = Vec::new();
    let ghost root = components_of(project_root@);
    assert(crate::text::strs(out@) =~= globs_of(root, mounts@, parts@, 0));
    for i in 0..mounts.len()
        invariant
            parts@.len() == mounts@.len(),
            root == components_of(project_root@),
            crate::text::strs(out@) == globs_of(root, mounts@, parts@, i as int),
    {
        broadcast use crate::text::lemma_strs_push;

        if let Some(g) = mount_glob(project_root, mounts[i].dir.as_str(), &parts[i]) {
            if !crate::text::has_str(&out, g.as_str()) {
                out.push(g);
            }
        }
    }
    out
}

} // verus!
