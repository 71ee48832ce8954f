//! `docli init`: what becomes of the mount table, which agents are wired, and what is said.
//!
//! Everything that can be refused is decided before anything is written. First the table is
//! shaped, then the intent is read out of the flags, and only a table that passed every rule
//! becomes a [`Ready`] one, which is the only kind that can be put on disk.

use vstd::prelude::*;

use crate::agents::agent;
use crate::agents::agent_rows;
use crate::agents::agents;
use crate::agents::connection_url;
use crate::agents::connection_url_bare;
use crate::agents::row_of;
use crate::agents::AgentDef;
use crate::agents::Vendor;
use crate::agents::MCP_BARE_PATH;
use crate::agents::MCP_LABEL_PATH_PREFIX;
use crate::config::fault_of;
use crate::config::geometry_fault;
use crate::config::holds;
use crate::config::is_ancestor_or_self;
use crate::config::mounts_of;
use crate::config::needs_cache;
use crate::config::resolve_mount_dirs;
use crate::config::resolved;
use crate::config::table_fault;
use crate::config::validate_config;
use crate::config::validate_geometry;
use crate::config::validate_geometry_paths_only;
use crate::config::ConfigError;
use crate::config::DocliToml;
use crate::config::IgnoreState;
use crate::config::Mount;
use crate::config::MountPlace;
use crate::config::MountVal;
use crate::config::ProjectPlace;
use crate::hooks::agent_named;
use crate::hooks::HookAgent;
use crate::ids::id_text;
use crate::ids::print_id;
use crate::labels::hashed_label;
use crate::labels::is_label;
use crate::labels::label_of;
use crate::labels::lowercased;
use crate::labels::sanitize_label;
use crate::labels::valid_label;
use crate::report::notices;
use crate::report::Notice;
use crate::report::NoticeVal;
use crate::text::after_prefix;
use crate::text::cat2;
use crate::text::cat3;
use crate::text::cat4;
use crate::text::cat5;
use crate::text::chars_of;
use crate::text::clone_opt;
use crate::text::contains_control;
use crate::text::debug_of;
use crate::text::debug_text;
use crate::text::decimal;
use crate::text::decimal_of;
use crate::text::find_in;
use crate::text::find_sub;
use crate::text::has_control;
use crate::text::is_white;
use crate::text::is_whitespace;
use crate::text::join;
use crate::text::join_of;
use crate::text::lines;
use crate::text::lines_of;
use crate::text::opt_str;
use crate::text::same;
use crate::text::split;
use crate::text::split_of;
use crate::text::split_once;
use crate::text::split_once_of;
use crate::text::strip_prefix;
use crate::text::strs;
use crate::text::trim;
use crate::text::trim_end_char;
use crate::text::trim_end_char_of;
use crate::text::trim_of;

verus! {

/// The flags of the command.
#[derive(Debug)]
pub struct InitArgs {
    pub workspace: Option<u128>,
    pub dir: Option<String>,
    pub folder: Option<String>,
    pub name: Option<String>,
    pub server: Option<String>,
    /// `auto`, `none`, or a comma list of agent keys. Absent means to ask, or to give a hint.
    pub mcp: Option<String>,
    /// The connection label; one off the grammar is refused, never truncated.
    pub mcp_label: Option<String>,
    /// Wire the unlabeled connection.
    pub mcp_bare: bool,
    /// May the reader be asked?
    pub allow_prompt: bool,
    /// Clear a recorded folder scope. Leaving `folder` out keeps it.
    pub clear_folder: bool,
    /// Append the missing ignore lines instead of naming them.
    pub write_gitignore: bool,
    /// Which agents get the skill: `auto`, which is the default, `none`, or a comma list.
    pub skills: Option<String>,
    /// Which agents get hooks: `none`, which is the default, `auto`, or a comma list.
    pub hooks: Option<String>,
    /// Write the instruction files.
    pub instructions: bool,
}

/// Why the command is refused.
#[derive(Debug)]
pub enum InitError {
    /// The directory is inside another project.
    Nested { ancestor: String },
    /// Another server, while mounts are recorded for this one.
    ServerSwitch { stored: String, requested: String },
    /// Flags that shape a mount, without a mount.
    StrayFlags { flags: String, usage: String },
    /// A directory without a workspace.
    DirAlone,
    /// The table breaks a rule, and what the table is.
    Table(ConfigError, DocliToml),
    /// The label on the command line is off the grammar.
    BadLabel { label: String },
    /// The label in the table is off the grammar.
    BadStoredLabel { label: String },
    /// No agent has this key.
    UnknownAgent { key: String, flag: String, valid: String },
    /// An agent that has no hooks, in these words.
    BadHooks { why: String },
    /// The server holds control characters.
    ServerControl,
}

/// What an [`InitError`] says.
pub enum InitErr {
    Nested(Seq<char>),
    ServerSwitch(Seq<char>, Seq<char>),
    StrayFlags(Seq<char>, Seq<char>),
    DirAlone,
    Table(ConfigError),
    BadLabel(Seq<char>),
    BadStoredLabel(Seq<char>),
    UnknownAgent(Seq<char>, Seq<char>, Seq<char>),
    BadHooks(Seq<char>),
    ServerControl,
}

impl InitError {
    pub open spec fn view(&self) -> InitErr {
        match self {
            InitError::Nested { ancestor } => InitErr::Nested(ancestor@),
            InitError::ServerSwitch { stored, requested } => InitErr::ServerSwitch(
                stored@,
                requested@,
            ),
            InitError::StrayFlags { flags, usage } => InitErr::StrayFlags(flags@, usage@),
            InitError::DirAlone => InitErr::DirAlone,
            InitError::Table(e, _) => InitErr::Table(*e),
            InitError::BadLabel { label } => InitErr::BadLabel(label@),
            InitError::BadStoredLabel { label } => InitErr::BadStoredLabel(label@),
            InitError::UnknownAgent { key, flag, valid } => InitErr::UnknownAgent(
                key@,
                flag@,
                valid@,
            ),
            InitError::BadHooks { why } => InitErr::BadHooks(why@),
            InitError::ServerControl => InitErr::ServerControl,
        }
    }

    /// What is said of the refusal. The refusal of a table has words of its own.
    pub fn message(&self) -> (r: Option<String>)
        ensures
            opt_str(r) == init_message(self.view()),
    {
        match self {
            InitError::Nested { ancestor } => Some(
                cat3(
                    "this directory is inside the docli project at ",
                    ancestor.as_str(),
                    " - run `docli init` from there (a nested docli.toml would take precedence for every command run in its subtree)",
                ),
            ),
            InitError::ServerSwitch { stored, requested } => Some(
                cat5(
                    "docli.toml records server ",
                    stored.as_str(),
                    " and mounts that belong to it - switching to ",
                    requested.as_str(),
                    " would leave another server's workspace ids behind. Remove the mounts, or start a separate project.",
                ),
            ),
            InitError::StrayFlags { flags, usage } => Some(
                cat3(
                    flags.as_str(),
                    " applies to a specific mount - name it: docli init --workspace <id> --dir <dir> ",
                    usage.as_str(),
                ),
            ),
            InitError::DirAlone => Some(
                "--dir needs --workspace to say which mount it is for".to_owned(),
            ),
            InitError::Table(_, _) => None,
            InitError::BadLabel { label } => {
                let d = debug_of(label.as_str());
                Some(
                    cat3(
                        "--mcp-label ",
                        d.as_str(),
                        " is invalid: use at most 64 bytes containing only lowercase a-z, 0-9 and '-'; invalid labels are rejected rather than truncated",
                    ),
                )
            },
            InitError::BadStoredLabel { label } => {
                let d = debug_of(label.as_str());
                Some(
                    cat3(
                        "docli.toml's mcp_label ",
                        d.as_str(),
                        " is invalid: use at most 64 bytes containing only lowercase a-z, 0-9 and '-' - fix it in docli.toml or override it with --mcp-label",
                    ),
                )
            },
            InitError::UnknownAgent { key, flag, valid } => {
                let d = debug_of(key.as_str());
                let head = cat4("unknown agent ", d.as_str(), " in ", flag.as_str());
                Some(cat3(head.as_str(), " - valid: ", valid.as_str()))
            },
            InitError::BadHooks { why } => Some(
                cat3("--hooks: ", why.as_str(), " (only these two agents have a hook mechanism)"),
            ),
            InitError::ServerControl => Some(
                "docli.toml's server contains control characters - fix it before wiring agents".to_owned(),
            ),
        }
    }
}

/// What is said of a refusal.
pub open spec fn init_message(e: InitErr) -> Option<Seq<char>> {
    match e {
        InitErr::Nested(ancestor) => Some(
            "this directory is inside the docli project at "@ + ancestor
                + " - run `docli init` from there (a nested docli.toml would take precedence for every command run in its subtree)"@,
        ),
        InitErr::ServerSwitch(stored, requested) => Some(
            "docli.toml records server "@ + stored
                + " and mounts that belong to it - switching to "@ + requested
                + " would leave another server's workspace ids behind. Remove the mounts, or start a separate project."@,
        ),
        InitErr::StrayFlags(flags, usage) => Some(
            flags
                + " applies to a specific mount - name it: docli init --workspace <id> --dir <dir> "@
                + usage,
        ),
        InitErr::DirAlone => Some("--dir needs --workspace to say which mount it is for"@),
        InitErr::Table(_) => None,
        InitErr::BadLabel(label) => Some(
            "--mcp-label "@ + debug_text(label)
                + " is invalid: use at most 64 bytes containing only lowercase a-z, 0-9 and '-'; invalid labels are rejected rather than truncated"@,
        ),
        InitErr::BadStoredLabel(label) => Some(
            "docli.toml's mcp_label "@ + debug_text(label)
                + " is invalid: use at most 64 bytes containing only lowercase a-z, 0-9 and '-' - fix it in docli.toml or override it with --mcp-label"@,
        ),
        InitErr::UnknownAgent(key, flag, valid) => Some(
            "unknown agent "@ + debug_text(key) + " in "@ + flag + " - valid: "@ + valid,
        ),
        InitErr::BadHooks(why) => Some(
            "--hooks: "@ + why + " (only these two agents have a hook mechanism)"@,
        ),
        InitErr::ServerControl => Some(
            "docli.toml's server contains control characters - fix it before wiring agents"@,
        ),
    }
}

/// The error of a result.
pub open spec fn err_of<T>(r: Result<T, InitError>) -> Option<InitErr> {
    match r {
        Ok(_) => None,
        Err(e) => Some(e.view()),
    }
}

/// Refuse a directory inside another project. `found` tells how many levels up the nearest mount
/// table is, and `ancestor` where that is.
pub fn refuse_nested(found: Option<usize>, ancestor: &str) -> (r: Result<(), InitError>)
    ensures
        err_of(r) == (match found {
            Some(k) => if k > 0 {
                Some(InitErr::Nested(ancestor@))
            } else {
                None
            },
            None => None,
        }),
{
    match found {
        Some(k) if k > 0 => Err(InitError::Nested { ancestor: ancestor.to_owned() }),
        _ => Ok(()),
    }
}

/// What the flags say about mounts.
pub struct ArgsVal {
    pub workspace: Option<u128>,
    pub dir: Option<Seq<char>>,
    pub folder: Option<Seq<char>>,
    pub name: Option<Seq<char>>,
    pub server: Option<Seq<char>>,
    pub clear_folder: bool,
}

impl InitArgs {
    pub open spec fn view(&self) -> ArgsVal {
        ArgsVal {
            workspace: self.workspace,
            dir: opt_str(self.dir),
            folder: opt_str(self.folder),
            name: opt_str(self.name),
            server: opt_str(self.server),
            clear_folder: self.clear_folder,
        }
    }
}

/// The server after the flags.
pub open spec fn server_after(server: Seq<char>, a: ArgsVal) -> Seq<char> {
    match a.server {
        Some(s) => trim_end_char_of(s, '/'),
        None => server,
    }
}

/// A switch of servers under recorded mounts, whose ids belong to the old one.
pub open spec fn strands_mounts(server: Seq<char>, mounts: nat, a: ArgsVal) -> bool {
    a.server is Some && server_after(server, a) != trim_end_char_of(server, '/') && mounts > 0
}

/// The directory that the flags give a mount. Without one a mount gets this machine's cache.
pub open spec fn mount_dir(a: ArgsVal) -> Option<Seq<char>> {
    match a.dir {
        Some(d) => Some(d),
        None => if a.workspace is Some {
            Some(Seq::empty())
        } else {
            None
        },
    }
}

/// A recorded mount after the flags: absent flags keep what is recorded.
pub open spec fn repointed(m: MountVal, dir: Seq<char>, a: ArgsVal) -> MountVal {
    MountVal {
        dir,
        folder: if a.folder is Some {
            a.folder
        } else if a.clear_folder {
            None
        } else {
            m.folder
        },
        name: if a.name is Some {
            a.name
        } else {
            m.name
        },
        ..m
    }
}

/// The mount that mounts a workspace.
pub open spec fn mounts_it(ms: Seq<MountVal>, ws: u128, i: int) -> bool {
    &&& 0 <= i < ms.len()
    &&& ms[i].workspace == ws
    &&& forall|j: int| 0 <= j < i ==> (#[trigger] ms[j]).workspace != ws
}

/// The table with the workspace mounted: its mount re-pointed, or a new one behind the others.
pub open spec fn upserted(ms: Seq<MountVal>, ws: u128, dir: Seq<char>, a: ArgsVal) -> Seq<MountVal> {
    if exists|i: int| mounts_it(ms, ws, i) {
        let i = choose|i: int| mounts_it(ms, ws, i);
        ms.update(i, repointed(ms[i], dir, a))
    } else {
        ms.push(
            MountVal { workspace: ws, dir, derived_dir: false, folder: a.folder, name: a.name },
        )
    }
}

/// What is said of a mount that moves.
pub open spec fn repoint_notices(ms: Seq<MountVal>, ws: u128, dir: Seq<char>) -> Seq<NoticeVal> {
    if exists|i: int| mounts_it(ms, ws, i) {
        let i = choose|i: int| mounts_it(ms, ws, i);
        if ms[i].dir != dir {
            seq![
                NoticeVal::Warn(
                    "workspace "@ + id_text(ws) + " was mounted at `"@ + ms[i].dir
                        + "` - re-pointing it to `"@ + dir
                        + "`; the old directory is no longer managed (remove it yourself)"@,
                ),
            ]
        } else {
            Seq::empty()
        }
    } else {
        Seq::empty()
    }
}

/// The flags among `--folder`, `--name` and `--clear-folder` that were given.
pub open spec fn stray_flags(a: ArgsVal) -> Seq<Seq<char>> {
    (if a.folder is Some {
        seq!["--folder"@]
    } else {
        Seq::empty()
    }) + (if a.name is Some {
        seq!["--name"@]
    } else {
        Seq::empty()
    }) + (if a.clear_folder {
        seq!["--clear-folder"@]
    } else {
        Seq::empty()
    })
}

/// How they are written.
pub open spec fn stray_usage(a: ArgsVal) -> Seq<Seq<char>> {
    (if a.folder is Some {
        seq!["--folder <folder>"@]
    } else {
        Seq::empty()
    }) + (if a.name is Some {
        seq!["--name <name>"@]
    } else {
        Seq::empty()
    }) + (if a.clear_folder {
        seq!["--clear-folder"@]
    } else {
        Seq::empty()
    })
}

/// The table that the flags make, before its blank directories are filled in.
pub open spec fn table_written(ms: Seq<MountVal>, a: ArgsVal) -> Seq<MountVal> {
    match a.workspace {
        Some(ws) => upserted(ms, ws, mount_dir(a)->0, a),
        None => ms,
    }
}

/// The table that the flags make.
pub open spec fn table_after(ms: Seq<MountVal>, a: ArgsVal, cache: Option<Seq<char>>) -> Seq<MountVal> {
    table_written(ms, a).map_values(
        |m: MountVal|
            resolved(
                m,
                match cache {
                    Some(c) => c,
                    None => Seq::empty(),
                },
            ),
    )
}

/// The refusal that the flags meet.
pub open spec fn shape_fault(
    server: Seq<char>,
    ms: Seq<MountVal>,
    a: ArgsVal,
    cache: Option<Seq<char>>,
) -> Option<InitErr> {
    if strands_mounts(server, ms.len(), a) {
        Some(InitErr::ServerSwitch(trim_end_char_of(server, '/'), server_after(server, a)))
    } else {
        match a.workspace {
            Some(_) => if cache is None && needs_cache(table_written(ms, a)) {
                Some(InitErr::Table(ConfigError::NoHome))
            } else {
                match table_fault(table_after(ms, a, cache)) {
                    Some(e) => Some(InitErr::Table(e)),
                    None => None,
                }
            },
            None => if a.dir is Some {
                Some(InitErr::DirAlone)
            } else if stray_flags(a).len() > 0 {
                Some(
                    InitErr::StrayFlags(
                        join_of(stray_flags(a), ", "@),
                        join_of(stray_usage(a), " "@),
                    ),
                )
            } else if cache is None && needs_cache(table_written(ms, a)) {
                Some(InitErr::Table(ConfigError::NoHome))
            } else {
                None
            },
        }
    }
}

fn upsert(config: &mut DocliToml, ws: u128, dir: &str, args: &InitArgs) -> (r: Vec<Notice>)
    ensures
        final(config).server == old(config).server,
        final(config).mcp_label == old(config).mcp_label,
        mounts_of(final(config).mounts@) == upserted(
            mounts_of(old(config).mounts@),
            ws,
            dir@,
            args.view(),
        ),
        notices(r@) == repoint_notices(mounts_of(old(config).mounts@), ws, dir@),
{
    let mut said: Vec<Notice> = Vec::new();
    let ghost before = mounts_of(config.mounts@);
    let n: usize = config.mounts.len();
    for i in 0..n
        invariant
            n == config.mounts@.len(),
            *config == *old(config),
            before == mounts_of(config.mounts@),
            said@.len() == 0,
            forall|j: int| 0 <= j < i ==> (#[trigger] before[j]).workspace != ws,
    {
        assert(before[i as int] == config.mounts@[i as int].view());
        if config.mounts[i].workspace == ws {
            proof {
                assert(mounts_it(before, ws, i as int));
                let k = choose|k: int| mounts_it(before, ws, k);
                assert(mounts_it(before, ws, k));
                assert(k == i);
            }
            if !same(config.mounts[i].dir.as_str(), dir) {
                let id = print_id(ws);
                let head = cat4(
                    "workspace ",
                    id.as_str(),
                    " was mounted at `",
                    config.mounts[i].dir.as_str(),
                );
                said.push(
                    Notice::Warn(
                        cat4(
                            head.as_str(),
                            "` - re-pointing it to `",
                            dir,
                            "`; the old directory is no longer managed (remove it yourself)",
                        ),
                    ),
                );
            }
            assert(notices(said@) =~= repoint_notices(before, ws, dir@));
            let m: &Mount = &config.mounts[i];
            let folder: Option<String> = if args.folder.is_some() {
                clone_opt(&args.folder)
            } else if args.clear_folder {
                None
            } else {
                clone_opt(&m.folder)
            };
            let name: Option<String> = if args.name.is_some() {
                clone_opt(&args.name)
            } else {
                clone_opt(&m.name)
            };
            let moved = Mount {
                workspace: m.workspace,
                dir: dir.to_owned(),
                derived_dir: m.derived_dir,
                folder,
                name,
            };
            let ghost mv = moved.view();
            config.mounts.set(i, moved);
            assert(mounts_of(config.mounts@) =~= before.update(i as int, mv));
            return said;
        }
    }
    assert(!exists|i: int| mounts_it(before, ws, i));
    let fresh = Mount {
        workspace: ws,
        dir: dir.to_owned(),
        derived_dir: false,
        folder: clone_opt(&args.folder),
        name: clone_opt(&args.name),
    };
    let ghost fv = fresh.view();
    config.mounts.push(fresh);
    assert(mounts_of(config.mounts@) =~= before.push(fv));
    assert(notices(said@) =~= repoint_notices(before, ws, dir@));
    said
}

fn strays(args: &InitArgs) -> (r: (Vec<String>, Vec<String>))
    ensures
        strs(r.0@) == stray_flags(args.view()),
        strs(r.1@) == stray_usage(args.view()),
{
    let mut flags: Vec<String> = Vec::new();
    let mut usage: Vec<String> = Vec::new();
    if args.folder.is_some() {
        flags.push("--folder".to_owned());
        usage.push("--folder <folder>".to_owned());
    }
    if args.name.is_some() {
        flags.push("--name".to_owned());
        usage.push("--name <name>".to_owned());
    }
    if args.clear_folder {
        flags.push("--clear-folder".to_owned());
        usage.push("--clear-folder".to_owned());
    }
    assert(strs(flags@) =~= stray_flags(args.view()));
    assert(strs(usage@) =~= stray_usage(args.view()));
    (flags, usage)
}

/// A table as the flags make it, and what is to be said of it.
#[derive(Debug)]
pub struct Shaped {
    pub config: DocliToml,
    pub notices: Vec<Notice>,
}

/// Make the table that the flags ask for, with every blank directory filled in. `cache` is the path
/// of this machine's cache with a separator at its end. A table that a reader would refuse is refused here, where it is made.
pub fn shape(config: DocliToml, args: &InitArgs, cache: Option<&str>) -> (r: Result<
    Shaped,
    InitError,
>)
    ensures
        err_of(r) == shape_fault(
            config.server@,
            mounts_of(config.mounts@),
            args.view(),
            crate::text::opt_ref(cache),
        ),
        r matches Err(InitError::Table(e, table)) ==> e is NoHome || mounts_of(table.mounts@)
            == table_after(
            mounts_of(config.mounts@),
            args.view(),
            crate::text::opt_ref(cache),
        ),
        r matches Ok(s) ==> {
            &&& s.config.server@ == server_after(config.server@, args.view())
            &&& s.config.mcp_label == config.mcp_label
            &&& mounts_of(s.config.mounts@) == table_after(
                mounts_of(config.mounts@),
                args.view(),
                crate::text::opt_ref(cache),
            )
            &&& notices(s.notices@) == (match args.workspace {
                Some(ws) => repoint_notices(
                    mounts_of(config.mounts@),
                    ws,
                    mount_dir(args.view())->0,
                ),
                None => Seq::empty(),
            })
        },
{
    let mut config = config;
    let ghost server = config.server@;
    let ghost ms = mounts_of(config.mounts@);
    if let Some(s) = &args.server {
        let requested = trim_end_char(s.as_str(), '/');
        let stored = trim_end_char(config.server.as_str(), '/');
        if !same(requested.as_str(), stored.as_str()) && config.mounts.len() > 0 {
            return Err(InitError::ServerSwitch { stored, requested });
        }
        config.server = requested;
    }
    match args.workspace {
        Some(ws) => {
            let dir: String = match &args.dir {
                Some(d) => d.clone(),
                None => String::new(),
            };
            assert(dir@ =~= mount_dir(args.view())->0);
            let said = upsert(&mut config, ws, dir.as_str(), args);
            if let Err(e) = resolve_mount_dirs(&mut config, cache) {
                return Err(InitError::Table(e, config));
            }
            assert(mounts_of(config.mounts@) =~= table_after(
                ms,
                args.view(),
                crate::text::opt_ref(cache),
            ));
            if let Err(e) = validate_config(&config) {
                return Err(InitError::Table(e, config));
            }
            Ok(Shaped { config, notices: said })
        },
        None => {
            if args.dir.is_some() {
                return Err(InitError::DirAlone);
            }
            let (flags, usage) = strays(args);
            if flags.len() > 0 {
                assert(stray_flags(args.view()).len() > 0);
                return Err(
                    InitError::StrayFlags { flags: join(&flags, ", "), usage: join(&usage, " ") },
                );
            }
            if let Err(e) = resolve_mount_dirs(&mut config, cache) {
                return Err(InitError::Table(e, config));
            }
            assert(mounts_of(config.mounts@) =~= table_after(
                ms,
                args.view(),
                crate::text::opt_ref(cache),
            ));
            let none: Vec<Notice> = Vec::new();
            assert(notices(none@) =~= Seq::<NoticeVal>::empty());
            Ok(Shaped { config, notices: none })
        },
    }
}

/// Keys as texts.
pub open spec fn key_texts(v: Seq<&'static str>) -> Seq<Seq<char>> {
    Seq::new(v.len(), |i: int| v[i]@)
}

broadcast proof fn lemma_keys_push(v: Seq<&'static str>, k: &'static str)
    ensures
        #[trigger] key_texts(v.push(k)) == key_texts(v).push(k@),
{
    assert(key_texts(v.push(k)) =~= key_texts(v).push(k@));
}

fn has_key(v: &Vec<&'static str>, key: &str) -> (r: bool)
    ensures
        r == key_texts(v@).contains(key@),
{
    for i in 0..v.len()
        invariant
            forall|j: int| 0 <= j < i ==> #[trigger] key_texts(v@)[j] != key@,
    {
        assert(key_texts(v@)[i as int] == v@[i as int]@);
        if same(v[i], key) {
            return true;
        }
    }
    false
}

fn clone_keys(v: &Vec<&'static str>) -> (r: Vec<&'static str>)
    ensures
        r@ == v@,
{
    let mut out: Vec<&'static str> = Vec::new();
    for i in 0..v.len()
        invariant
            out@ == v@.take(i as int),
    {
        out.push(v[i]);
        assert(out@ =~= v@.take(i + 1));
    }
    assert(v@.take(v@.len() as int) =~= v@);
    out
}

/// What a list of agents names.
pub enum Named {
    Keys(Seq<Seq<char>>),
    /// The first item that names no agent.
    Unknown(Seq<char>),
}

/// The agents that the pieces of a list name; blank pieces name none. With `once`, an agent that
/// is named again counts once.
pub open spec fn named(rows: Seq<AgentDef>, pieces: Seq<Seq<char>>, once: bool) -> Named
    decreases pieces.len(),
{
    if pieces.len() == 0 {
        Named::Keys(Seq::empty())
    } else {
        match named(rows, pieces.drop_last(), once) {
            Named::Unknown(k) => Named::Unknown(k),
            Named::Keys(keys) => {
                let k = trim_of(pieces.last());
                if k.len() == 0 {
                    Named::Keys(keys)
                } else {
                    match row_of(rows, k) {
                        None => Named::Unknown(k),
                        Some(d) => if once && keys.contains(d.key@) {
                            Named::Keys(keys)
                        } else {
                            Named::Keys(keys.push(d.key@))
                        },
                    }
                }
            },
        }
    }
}

proof fn lemma_unknown_stays(rows: Seq<AgentDef>, pieces: Seq<Seq<char>>, once: bool, n: int)
    requires
        0 <= n <= pieces.len(),
        named(rows, pieces.take(n), once) is Unknown,
    ensures
        named(rows, pieces, once) == named(rows, pieces.take(n), once),
    decreases pieces.len() - n,
{
    if n < pieces.len() {
        assert(pieces.take(n + 1).drop_last() =~= pieces.take(n));
        lemma_unknown_stays(rows, pieces, once, n + 1);
    } else {
        assert(pieces.take(n) =~= pieces);
    }
}

/// The keys of the table, as they are listed.
pub open spec fn valid_keys_of(vendor: Vendor) -> Seq<char> {
    join_of(
        Seq::new(agent_rows(vendor).len(), |i: int| agent_rows(vendor)[i].key@),
        ", "@,
    )
}

fn valid_keys(vendor: Vendor) -> (r: String)
    ensures
        r@ == valid_keys_of(vendor),
{
    let rows = agents(vendor);
    let mut keys: Vec<String> = Vec::new();
    for i in 0..rows.len()
        invariant
            rows@ == agent_rows(vendor),
            strs(keys@) == Seq::new(i as nat, |k: int| rows@[k].key@),
    {
        broadcast use crate::text::lemma_strs_push;

        keys.push(rows[i].key.to_owned());
        assert(strs(keys@) =~= Seq::new((i + 1) as nat, |k: int| rows@[k].key@));
    }
    assert(strs(keys@) =~= Seq::new(
        agent_rows(vendor).len(),
        |i: int| agent_rows(vendor)[i].key@,
    ));
    join(&keys, ", ")
}

/// The refusal of a list, where it names something that is no agent.
pub open spec fn list_fault(vendor: Vendor, n: Named, flag: Seq<char>) -> Option<InitErr> {
    match n {
        Named::Keys(_) => None,
        Named::Unknown(k) => Some(InitErr::UnknownAgent(k, flag, valid_keys_of(vendor))),
    }
}

/// Read a comma list of agent keys. An unknown one is refused, never dropped.
pub fn parse_agent_list(vendor: Vendor, list: &str, flag: &str, once: bool) -> (r: Result<
    Vec<&'static str>,
    InitError,
>)
    ensures
        err_of(r) == list_fault(
            vendor,
            named(agent_rows(vendor), split_of(list@, ','), once),
            flag@,
        ),
        r matches Ok(keys) ==> named(agent_rows(vendor), split_of(list@, ','), once)
            == Named::Keys(key_texts(keys@)),
{
    let pieces = split(list, ',');
    let ghost all = split_of(list@, ',');
    let ghost rows = agent_rows(vendor);
    let mut keys: Vec<&'static str> = Vec::new();
    assert(all.take(0) =~= Seq::<Seq<char>>::empty());
    assert(key_texts(keys@) =~= Seq::<Seq<char>>::empty());
    for i in 0..pieces.len()
        invariant
            strs(pieces@) == all,
            all == split_of(list@, ','),
            rows == agent_rows(vendor),
            named(rows, all.take(i as int), once) == Named::Keys(key_texts(keys@)),
    {
        broadcast use lemma_keys_push;

        assert(all.take(i + 1).drop_last() =~= all.take(i as int));
        assert(all.take(i + 1).last() == pieces@[i as int]@);
        let k = trim(pieces[i].as_str());
        if !k.as_str().is_empty() {
            match agent(vendor, k.as_str()) {
                Some(d) => {
                    if !once || !has_key(&keys, d.key) {
                        keys.push(d.key);
                    }
                },
                None => {
                    proof {
                        lemma_unknown_stays(rows, all, once, i + 1);
                    }
                    let valid = valid_keys(vendor);
                    return Err(
                        InitError::UnknownAgent { key: k, flag: flag.to_owned(), valid },
                    );
                },
            }
        }
    }
    assert(all.take(pieces@.len() as int) =~= all);
    Ok(keys)
}

/// What `--mcp` asks for.
#[derive(Debug)]
pub enum McpPlan {
    Skip,
    /// Nothing, but say how it is done.
    Hint,
    /// Ask the reader.
    Prompt,
    /// What was detected.
    Auto,
    Keys(Vec<&'static str>),
}

/// What a [`McpPlan`] says.
pub enum PlanVal {
    Skip,
    Hint,
    Prompt,
    Auto,
    Keys(Seq<Seq<char>>),
}

impl McpPlan {
    pub open spec fn view(&self) -> PlanVal {
        match self {
            McpPlan::Skip => PlanVal::Skip,
            McpPlan::Hint => PlanVal::Hint,
            McpPlan::Prompt => PlanVal::Prompt,
            McpPlan::Auto => PlanVal::Auto,
            McpPlan::Keys(k) => PlanVal::Keys(key_texts(k@)),
        }
    }
}

/// The flag, trimmed.
pub open spec fn flag_text(flag: Option<String>) -> Option<Seq<char>> {
    match flag {
        Some(f) => Some(trim_of(f@)),
        None => None,
    }
}

/// What `--mcp` asks for, where it asks for something that can be had.
pub open spec fn plan_val(vendor: Vendor, mcp: Option<Seq<char>>, may_ask: bool) -> PlanVal {
    match mcp {
        None => if may_ask {
            PlanVal::Prompt
        } else {
            PlanVal::Hint
        },
        Some(m) => if m == "none"@ || m.len() == 0 {
            PlanVal::Skip
        } else if m == "auto"@ {
            PlanVal::Auto
        } else {
            match named(agent_rows(vendor), split_of(m, ','), false) {
                Named::Keys(keys) => if keys.len() == 0 {
                    PlanVal::Skip
                } else {
                    PlanVal::Keys(keys)
                },
                Named::Unknown(_) => PlanVal::Skip,
            }
        },
    }
}

/// A flag that holds a list of agents.
pub open spec fn is_list(flag: Option<Seq<char>>) -> bool {
    match flag {
        Some(m) => m != "none"@ && m.len() > 0 && m != "auto"@,
        None => false,
    }
}

/// The refusal that the connection flags meet.
pub open spec fn plan_fault(vendor: Vendor, args: InitArgs) -> Option<InitErr> {
    if args.mcp_label is Some && !is_label(args.mcp_label->0@) {
        Some(InitErr::BadLabel(args.mcp_label->0@))
    } else if is_list(flag_text(args.mcp)) {
        list_fault(
            vendor,
            named(agent_rows(vendor), split_of(flag_text(args.mcp)->0, ','), false),
            "--mcp"@,
        )
    } else {
        None
    }
}

/// Read what `--mcp` asks for. A label on the command line is held to the grammar whether or not
/// it will be used. `interactive` tells whether there is a reader to ask.
pub fn plan_mcp(vendor: Vendor, args: &InitArgs, interactive: bool) -> (r: Result<
    McpPlan,
    InitError,
>)
    ensures
        err_of(r) == plan_fault(vendor, *args),
        r matches Ok(p) ==> p.view() == plan_val(
            vendor,
            flag_text(args.mcp),
            args.allow_prompt && interactive,
        ),
{
    if let Some(l) = &args.mcp_label {
        if !valid_label(l.as_str()) {
            return Err(InitError::BadLabel { label: l.clone() });
        }
    }
    match &args.mcp {
        None => if args.allow_prompt && interactive {
            Ok(McpPlan::Prompt)
        } else {
            Ok(McpPlan::Hint)
        },
        Some(m) => {
            let t = trim(m.as_str());
            if same(t.as_str(), "none") || t.as_str().is_empty() {
                return Ok(McpPlan::Skip);
            }
            if same(t.as_str(), "auto") {
                return Ok(McpPlan::Auto);
            }
            match parse_agent_list(vendor, t.as_str(), "--mcp", false) {
                Err(e) => Err(e),
                Ok(keys) => if keys.len() == 0 {
                    Ok(McpPlan::Skip)
                } else {
                    Ok(McpPlan::Keys(keys))
                },
            }
        },
    }
}

/// The agents that a plan selects.
pub open spec fn selected(
    plan: PlanVal,
    found: Seq<Seq<char>>,
    picked: Seq<Seq<char>>,
) -> Seq<Seq<char>> {
    match plan {
        PlanVal::Skip => Seq::empty(),
        PlanVal::Hint => Seq::empty(),
        PlanVal::Prompt => picked,
        PlanVal::Auto => found,
        PlanVal::Keys(keys) => keys,
    }
}

/// The agents that get the skill. Without the flag it is those that were detected.
pub open spec fn skill_agents(vendor: Vendor, skills: Option<Seq<char>>, found: Seq<Seq<char>>) -> Named {
    match skills {
        None => Named::Keys(found),
        Some(s) => if s == "none"@ || s.len() == 0 {
            Named::Keys(Seq::empty())
        } else if s == "auto"@ {
            Named::Keys(found)
        } else {
            named(agent_rows(vendor), split_of(s, ','), true)
        },
    }
}

/// What `--hooks` names.
pub enum HooksVal {
    Agents(Seq<HookAgent>),
    /// The first item that names no agent with hooks.
    Unknown(Seq<char>),
}

/// The agents that the pieces of a list name for hooks, each once.
pub open spec fn hooks_named(vendor: Vendor, pieces: Seq<Seq<char>>) -> HooksVal
    decreases pieces.len(),
{
    if pieces.len() == 0 {
        HooksVal::Agents(Seq::empty())
    } else {
        match hooks_named(vendor, pieces.drop_last()) {
            HooksVal::Unknown(k) => HooksVal::Unknown(k),
            HooksVal::Agents(list) => {
                let k = trim_of(pieces.last());
                if k.len() == 0 {
                    HooksVal::Agents(list)
                } else {
                    match agent_named(vendor, k) {
                        None => HooksVal::Unknown(k),
                        Some(a) => if list.contains(a) {
                            HooksVal::Agents(list)
                        } else {
                            HooksVal::Agents(list.push(a))
                        },
                    }
                }
            },
        }
    }
}

/// The agents that get hooks. Without the flag it is none.
pub open spec fn hook_agents(vendor: Vendor, hooks: Option<Seq<char>>, found: Seq<Seq<char>>) -> HooksVal {
    match hooks {
        None => HooksVal::Agents(Seq::empty()),
        Some(h) => if h == "none"@ || h.len() == 0 {
            HooksVal::Agents(Seq::empty())
        } else if h == "auto"@ {
            HooksVal::Agents(
                (if found.contains(vendor.key@) {
                    seq![HookAgent::ClaudeCode(vendor)]
                } else {
                    Seq::empty()
                }) + (if found.contains("codex"@) {
                    seq![HookAgent::Codex]
                } else {
                    Seq::empty()
                }),
            )
        } else {
            hooks_named(vendor, split_of(h, ','))
        },
    }
}

/// What is said of an item that names no agent with hooks.
pub open spec fn bad_hook_text(vendor: Vendor, k: Seq<char>) -> Seq<char> {
    "unknown agent "@ + debug_text(trim_of(k)) + " - use `"@ + vendor.key@ + "` or `codex`"@
}

proof fn lemma_unknown_hook_stays(vendor: Vendor, pieces: Seq<Seq<char>>, n: int)
    requires
        0 <= n <= pieces.len(),
        hooks_named(vendor, pieces.take(n)) is Unknown,
    ensures
        hooks_named(vendor, pieces) == hooks_named(vendor, pieces.take(n)),
    decreases pieces.len() - n,
{
    if n < pieces.len() {
        assert(pieces.take(n + 1).drop_last() =~= pieces.take(n));
        lemma_unknown_hook_stays(vendor, pieces, n + 1);
    } else {
        assert(pieces.take(n) =~= pieces);
    }
}

fn is_listed(v: &Vec<HookAgent>, a: HookAgent, Ghost(vendor): Ghost<Vendor>) -> (r: bool)
    requires
        forall|i: int|
            0 <= i < v@.len() ==> #[trigger] v@[i] == HookAgent::ClaudeCode(vendor) || v@[i]
                == HookAgent::Codex,
        a == HookAgent::ClaudeCode(vendor) || a == HookAgent::Codex,
    ensures
        r == v@.contains(a),
{
    for i in 0..v.len()
        invariant
            forall|k: int|
                0 <= k < v@.len() ==> #[trigger] v@[k] == HookAgent::ClaudeCode(vendor) || v@[k]
                    == HookAgent::Codex,
            a == HookAgent::ClaudeCode(vendor) || a == HookAgent::Codex,
            forall|j: int| 0 <= j < i ==> v@[j] != a,
    {
        let hit: bool = match (&v[i], a) {
            (HookAgent::Codex, HookAgent::Codex) => true,
            (HookAgent::ClaudeCode(_), HookAgent::ClaudeCode(_)) => true,
            _ => false,
        };
        if hit {
            assert(v@[i as int] == a);
            return true;
        }
    }
    false
}

fn parse_hook_list(vendor: Vendor, list: &str) -> (r: Result<Vec<HookAgent>, InitError>)
    ensures
        match hooks_named(vendor, split_of(list@, ',')) {
            HooksVal::Agents(a) => r matches Ok(v) && v@ == a,
            HooksVal::Unknown(k) => err_of(r) == Some(InitErr::BadHooks(bad_hook_text(vendor, k))),
        },
{
    let pieces = split(list, ',');
    let ghost all = split_of(list@, ',');
    let mut out: Vec<HookAgent> = Vec::new();
    assert(all.take(0) =~= Seq::<Seq<char>>::empty());
    for i in 0..pieces.len()
        invariant
            strs(pieces@) == all,
            all == split_of(list@, ','),
            hooks_named(vendor, all.take(i as int)) == HooksVal::Agents(out@),
            forall|k: int|
                0 <= k < out@.len() ==> #[trigger] out@[k] == HookAgent::ClaudeCode(vendor)
                    || out@[k] == HookAgent::Codex,
    {
        assert(all.take(i + 1).drop_last() =~= all.take(i as int));
        assert(all.take(i + 1).last() == pieces@[i as int]@);
        let k = trim(pieces[i].as_str());
        if !k.as_str().is_empty() {
            match HookAgent::parse(vendor, k.as_str()) {
                Ok(a) => {
                    if !is_listed(&out, a, Ghost(vendor)) {
                        out.push(a);
                    }
                },
                Err(why) => {
                    proof {
                        lemma_unknown_hook_stays(vendor, all, i + 1);
                    }
                    return Err(InitError::BadHooks { why });
                },
            }
        }
    }
    assert(all.take(pieces@.len() as int) =~= all);
    Ok(out)
}

/// The connection label: the one on the command line, else the recorded one, else one made from
/// the name of the directory.
pub open spec fn chosen_label(
    flag: Option<Seq<char>>,
    stored: Option<Seq<char>>,
    dir_name: Seq<char>,
) -> Seq<char> {
    match flag {
        Some(l) => l,
        None => match stored {
            Some(l) => l,
            None => label_of(lowercased(dir_name), hashed_label(dir_name)),
        },
    }
}

/// What the flags ask for, beyond the table.
#[derive(Debug)]
pub struct Intent {
    /// The agents to wire.
    pub wire: Vec<&'static str>,
    /// The agents that get the skill.
    pub skills: Vec<&'static str>,
    /// The agents that get hooks.
    pub hooks: Vec<HookAgent>,
    /// The connection to wire, and whether it is labeled.
    pub url: Option<(String, bool)>,
    /// The label to record.
    pub label: Option<String>,
    /// Say how agents are wired.
    pub hint: bool,
    pub notices: Vec<Notice>,
}

/// What the flags are read against.
pub struct Ground {
    pub vendor: Vendor,
    pub server: Seq<char>,
    pub stored_label: Option<Seq<char>>,
    pub found: Seq<Seq<char>>,
    pub picked: Seq<Seq<char>>,
    pub dir_name: Seq<char>,
}

/// The refusal that the intent meets.
pub open spec fn intent_fault(g: Ground, plan: PlanVal, args: InitArgs) -> Option<InitErr> {
    let wire = selected(plan, g.found, g.picked);
    match list_fault(g.vendor, skill_agents(g.vendor, flag_text(args.skills), g.found), "--skills"@) {
        Some(e) => Some(e),
        None => match hook_agents(g.vendor, flag_text(args.hooks), g.found) {
            HooksVal::Unknown(k) => Some(InitErr::BadHooks(bad_hook_text(g.vendor, k))),
            HooksVal::Agents(_) => if wire.len() > 0 && has_control(g.server) {
                Some(InitErr::ServerControl)
            } else if wire.len() > 0 && !args.mcp_bare && args.mcp_label is None
                && g.stored_label is Some && !is_label(g.stored_label->0) {
                Some(InitErr::BadStoredLabel(g.stored_label->0))
            } else {
                None
            },
        },
    }
}

/// What is said of the intent.
pub open spec fn intent_notices(wire: nat, plan: PlanVal, args: InitArgs) -> Seq<NoticeVal> {
    (if plan is Auto && wire == 0 {
        seq![
            NoticeVal::Detail("--mcp auto: no coding agents detected here - nothing was wired"@),
        ]
    } else {
        Seq::empty()
    }) + (if wire == 0 && (args.mcp_label is Some || args.mcp_bare) {
        seq![
            NoticeVal::Detail("--mcp-label/--mcp-bare do not apply: no agents were selected"@),
        ]
    } else {
        Seq::empty()
    })
}

/// The connection that is wired.
pub open spec fn wired_url(g: Ground, wire: nat, args: InitArgs) -> Option<(Seq<char>, bool)> {
    if wire == 0 {
        None
    } else if args.mcp_bare {
        Some((trim_end_char_of(g.server, '/') + MCP_BARE_PATH@, false))
    } else {
        Some(
            (
                trim_end_char_of(g.server, '/') + MCP_LABEL_PATH_PREFIX@ + chosen_label(
                    opt_str(args.mcp_label),
                    g.stored_label,
                    g.dir_name,
                ),
                true,
            ),
        )
    }
}

/// The label that is recorded.
pub open spec fn recorded_label(g: Ground, wire: nat, args: InitArgs) -> Option<Seq<char>> {
    if wire == 0 || args.mcp_bare {
        g.stored_label
    } else {
        Some(chosen_label(opt_str(args.mcp_label), g.stored_label, g.dir_name))
    }
}

pub open spec fn opt_url(o: Option<(String, bool)>) -> Option<(Seq<char>, bool)> {
    match o {
        Some(p) => Some((p.0@, p.1)),
        None => None,
    }
}

fn choose_skills(vendor: Vendor, args: &InitArgs, found: &Vec<&'static str>) -> (r: Result<
    Vec<&'static str>,
    InitError,
>)
    ensures
        err_of(r) == list_fault(
            vendor,
            skill_agents(vendor, flag_text(args.skills), key_texts(found@)),
            "--skills"@,
        ),
        r matches Ok(v) ==> skill_agents(vendor, flag_text(args.skills), key_texts(found@))
            == Named::Keys(key_texts(v@)),
{
    match &args.skills {
        None => Ok(clone_keys(found)),
        Some(s) => {
            let t = trim(s.as_str());
            if same(t.as_str(), "none") || t.as_str().is_empty() {
                let none: Vec<&'static str> = Vec::new();
                assert(key_texts(none@) =~= Seq::<Seq<char>>::empty());
                Ok(none)
            } else if same(t.as_str(), "auto") {
                Ok(clone_keys(found))
            } else {
                parse_agent_list(vendor, t.as_str(), "--skills", true)
            }
        },
    }
}

fn choose_hooks(vendor: Vendor, args: &InitArgs, found: &Vec<&'static str>) -> (r: Result<
    Vec<HookAgent>,
    InitError,
>)
    ensures
        match hook_agents(vendor, flag_text(args.hooks), key_texts(found@)) {
            HooksVal::Agents(a) => r matches Ok(v) && v@ == a,
            HooksVal::Unknown(k) => err_of(r) == Some(InitErr::BadHooks(bad_hook_text(vendor, k))),
        },
{
    match &args.hooks {
        None => Ok(Vec::new()),
        Some(h) => {
            let t = trim(h.as_str());
            if same(t.as_str(), "none") || t.as_str().is_empty() {
                Ok(Vec::new())
            } else if same(t.as_str(), "auto") {
                let mut out: Vec<HookAgent> = Vec::new();
                if has_key(found, vendor.key) {
                    out.push(HookAgent::ClaudeCode(vendor));
                }
                if has_key(found, "codex") {
                    out.push(HookAgent::Codex);
                }
                assert(out@ =~= (if key_texts(found@).contains(vendor.key@) {
                    seq![HookAgent::ClaudeCode(vendor)]
                } else {
                    Seq::empty()
                }) + (if key_texts(found@).contains("codex"@) {
                    seq![HookAgent::Codex]
                } else {
                    Seq::empty()
                }));
                Ok(out)
            } else {
                parse_hook_list(vendor, t.as_str())
            }
        },
    }
}

/// Read the whole intent out of the flags, before anything is written. `found` are the agents
/// that were detected, `picked` those that the reader chose, and `dir_name` is the name of the
/// project directory. A recorded label is as little trusted as one on the command line.
pub fn intent(
    vendor: Vendor,
    config: &DocliToml,
    args: &InitArgs,
    plan: &McpPlan,
    found: &Vec<&'static str>,
    picked: &Vec<&'static str>,
    dir_name: &str,
) -> (r: Result<Intent, InitError>)
    ensures
        ({
            let g = Ground {
                vendor,
                server: config.server@,
                stored_label: opt_str(config.mcp_label),
                found: key_texts(found@),
                picked: key_texts(picked@),
                dir_name: dir_name@,
            };
            let wire = selected(plan.view(), g.found, g.picked);
            &&& err_of(r) == intent_fault(g, plan.view(), *args)
            &&& r matches Ok(i) ==> {
                &&& key_texts(i.wire@) == wire
                &&& skill_agents(vendor, flag_text(args.skills), g.found) == Named::Keys(
                    key_texts(i.skills@),
                )
                &&& hook_agents(vendor, flag_text(args.hooks), g.found) == HooksVal::Agents(
                    i.hooks@,
                )
                &&& opt_url(i.url) == wired_url(g, wire.len(), *args)
                &&& opt_str(i.label) == recorded_label(g, wire.len(), *args)
                &&& plan_fault(vendor, *args) is None && wire.len() > 0 && !args.mcp_bare
                    ==> i.label is Some && is_label(i.label->0@)
                &&& i.hint == (plan.view() is Hint)
                &&& notices(i.notices@) == intent_notices(wire.len(), plan.view(), *args)
            }
        }),
{
    let wire: Vec<&'static str> = match plan {
        McpPlan::Skip => Vec::new(),
        McpPlan::Hint => Vec::new(),
        McpPlan::Prompt => clone_keys(picked),
        McpPlan::Auto => clone_keys(found),
        McpPlan::Keys(k) => clone_keys(k),
    };
    assert(key_texts(wire@) =~= selected(
        plan.view(),
        key_texts(found@),
        key_texts(picked@),
    ));
    let n: usize = wire.len();
    let mut said: Vec<Notice> = Vec::new();
    let auto: bool = match plan {
        McpPlan::Auto => true,
        _ => false,
    };
    if auto && n == 0 {
        said.push(
            Notice::Detail(
                "--mcp auto: no coding agents detected here - nothing was wired".to_owned(),
            ),
        );
    }
    if n == 0 && (args.mcp_label.is_some() || args.mcp_bare) {
        said.push(
            Notice::Detail(
                "--mcp-label/--mcp-bare do not apply: no agents were selected".to_owned(),
            ),
        );
    }
    assert(notices(said@) =~= intent_notices(n as nat, plan.view(), *args));
    let skills: Vec<&'static str> = match choose_skills(vendor, args, found) {
        Err(e) => {
            return Err(e);
        },
        Ok(v) => v,
    };
    let hooks: Vec<HookAgent> = match choose_hooks(vendor, args, found) {
        Err(e) => {
            return Err(e);
        },
        Ok(v) => v,
    };
    if n > 0 && contains_control(config.server.as_str()) {
        return Err(InitError::ServerControl);
    }
    let hint: bool = match plan {
        McpPlan::Hint => true,
        _ => false,
    };
    let label: Option<String>;
    let url: Option<(String, bool)>;
    if n == 0 {
        label = clone_opt(&config.mcp_label);
        url = None;
    } else if args.mcp_bare {
        label = clone_opt(&config.mcp_label);
        url = Some((connection_url_bare(config.server.as_str()), false));
    } else {
        let chosen: String = match &args.mcp_label {
            Some(l) => l.clone(),
            None => match &config.mcp_label {
                Some(l) => {
                    if !valid_label(l.as_str()) {
                        return Err(InitError::BadStoredLabel { label: l.clone() });
                    }
                    l.clone()
                },
                None => sanitize_label(dir_name),
            },
        };
        url = Some((connection_url(config.server.as_str(), chosen.as_str()), true));
        label = Some(chosen);
    }
    Ok(Intent { wire, skills, hooks, url, label, hint, notices: said })
}

/// The text that teaches an agent the contract.
pub const SKILL_MD: &'static str = "---
name: docli-mirror
description: Work with docli (докли) notes that are mirrored into this project. Use it when a request mentions docli or докли, when the project has a docli.toml, or when a path lies under .docli/mirror/ or another .docli directory.
allowed-tools: Read, Grep, Glob
---

# The docli mirror

The mirror is a read-only copy of notes whose home is the server. These rules hold for the whole task.

- An edit of a mirror file is never synced and never protected: the next sync may overwrite it. To change a note, use the docli MCP connection and prefer `edit_note`; a write that met another one answers with `conflictSiblingId`.
- The mirror may be behind the server. `docli sync --check` tells whether it is.
- A note that is not in the mirror may still exist: only a server search that does not report an incomplete index establishes that a note is absent.
- `docli search` publishes **no local mirror path** for its results. Read a note by its id.
- `docli read` exits 3 when this mirror does not hold the requested note or file. That is no statement about the server.
- A graph that was not computed yet is reported as missing, never an empty list.
";

/// What stands above the mount table in its file.
pub open spec fn header_text() -> Seq<char> {
    "# docli.toml - the mount table for docli-cli (committed; names workspaces, grants nothing).\n# Mounts are keyed by stable workspace IDs, never by @handles (which can be renamed).\n# The mirror dirs and .docli/ must be git-ignored; only this file is committed.\n\n"@
}

pub fn config_header() -> (r: &'static str)
    ensures
        r@ == header_text(),
{
    "# docli.toml - the mount table for docli-cli (committed; names workspaces, grants nothing).\n# Mounts are keyed by stable workspace IDs, never by @handles (which can be renamed).\n# The mirror dirs and .docli/ must be git-ignored; only this file is committed.\n\n"
}

/// The file that holds a table which prints as `body`.
pub fn config_text(body: &str) -> (r: String)
    ensures
        r@ == header_text() + body@,
{
    cat2(config_header(), body)
}

/// A table that passed every rule, the one on git among them. A table without mounts is a legal
/// state on the way and passes.
#[derive(Debug)]
pub struct Ready {
    config: DocliToml,
}

/// A mount as it is written: a directory that was derived is this machine's business and is left
/// out.
pub open spec fn on_disk(m: MountVal) -> MountVal {
    if m.derived_dir {
        MountVal { dir: Seq::empty(), ..m }
    } else {
        m
    }
}

impl Ready {
    pub closed spec fn server(&self) -> Seq<char> {
        self.config.server@
    }

    pub closed spec fn mounts(&self) -> Seq<MountVal> {
        mounts_of(self.config.mounts@)
    }

    pub closed spec fn label(&self) -> Option<Seq<char>> {
        opt_str(self.config.mcp_label)
    }

    /// The table as it is written.
    pub fn for_disk(&self) -> (r: DocliToml)
        ensures
            r.server@ == self.server(),
            opt_str(r.mcp_label) == self.label(),
            mounts_of(r.mounts@) == self.mounts().map_values(|m: MountVal| on_disk(m)),
    {
        let mut mounts: Vec<Mount> = Vec::new();
        let ghost ms = self.mounts();
        for i in 0..self.config.mounts.len()
            invariant
                ms == mounts_of(self.config.mounts@),
                mounts_of(mounts@) == ms.take(i as int).map_values(|m: MountVal| on_disk(m)),
        {
            let m: &Mount = &self.config.mounts[i];
            assert(ms[i as int] == m.view());
            let ghost before = mounts@;
            let copy = Mount {
                workspace: m.workspace,
                dir: if m.derived_dir {
                    String::new()
                } else {
                    m.dir.clone()
                },
                derived_dir: m.derived_dir,
                folder: clone_opt(&m.folder),
                name: clone_opt(&m.name),
            };
            let ghost cv = copy.view();
            assert(cv.dir =~= on_disk(m.view()).dir);
            mounts.push(copy);
            assert(mounts_of(mounts@) =~= mounts_of(before).push(cv));
            assert(mounts_of(mounts@) =~= ms.take(i + 1).map_values(|m: MountVal| on_disk(m)));
        }
        assert(ms.take(self.config.mounts@.len() as int) =~= ms);
        DocliToml {
            server: self.config.server.clone(),
            mounts,
            mcp_label: clone_opt(&self.config.mcp_label),
        }
    }
}

/// Hold a table to the rules on paths, before the ignore lines are written.
pub fn check_paths(config: &DocliToml, places: &Vec<MountPlace>, p: &ProjectPlace) -> (r: Result<
    (),
    ConfigError,
>)
    requires
        places@.len() == config.mounts@.len(),
    ensures
        fault_of(r) == (if config.mounts@.len() == 0 {
            None
        } else {
            geometry_fault(mounts_of(config.mounts@), places@, *p, false)
        }),
{
    if config.mounts.len() == 0 {
        return Ok(());
    }
    validate_geometry_paths_only(config, places, p)
}

/// Hold a table to every rule, and record the label. Only what comes out of here is written.
pub fn ready(
    config: DocliToml,
    label: Option<String>,
    places: &Vec<MountPlace>,
    p: &ProjectPlace,
) -> (r: Result<Ready, InitError>)
    requires
        places@.len() == config.mounts@.len(),
    ensures
        err_of(r) == (if config.mounts@.len() == 0 {
            None
        } else {
            match geometry_fault(mounts_of(config.mounts@), places@, *p, true) {
                Some(e) => Some(InitErr::Table(e)),
                None => None,
            }
        }),
        r matches Err(InitError::Table(_, table)) ==> table == config,
        r matches Ok(done) ==> {
            &&& done.server() == config.server@
            &&& done.mounts() == mounts_of(config.mounts@)
            &&& done.label() == opt_str(label)
        },
{
    if config.mounts.len() > 0 {
        if let Err(e) = validate_geometry(&config, places, p) {
            return Err(InitError::Table(e, config));
        }
    }
    Ok(Ready { config: DocliToml { server: config.server, mounts: config.mounts, mcp_label: label } })
}

/// A mount as it is read back: what was derived is not written down.
pub open spec fn read_back(m: MountVal) -> MountVal {
    MountVal { derived_dir: false, ..on_disk(m) }
}

/// What is written means what was meant: read back and resolved on the same machine, a mount is
/// the mount that was written.
pub proof fn a_written_mount_reads_back(m: MountVal, cache: Seq<char>)
    requires
        !m.derived_dir,
    ensures
        resolved(read_back(resolved(m, cache)), cache) == resolved(m, cache),
{
    let blank = Seq::<char>::empty();
    assert(trim_of(blank).len() == 0);
}

/// No machine's own path is ever written.
pub proof fn a_derived_directory_is_never_written(m: MountVal)
    requires
        m.derived_dir,
    ensures
        on_disk(m).dir.len() == 0,
{
}

/// Making the same table twice changes nothing: a workspace is mounted once, however often the
/// command runs, and flags that are left out keep what is recorded.
pub proof fn repeating_the_command_changes_nothing(
    ms: Seq<MountVal>,
    ws: u128,
    dir: Seq<char>,
    a: ArgsVal,
)
    ensures
        upserted(upserted(ms, ws, dir, a), ws, dir, a) == upserted(ms, ws, dir, a),
{
    let once = upserted(ms, ws, dir, a);
    if exists|i: int| mounts_it(ms, ws, i) {
        let i = choose|i: int| mounts_it(ms, ws, i);
        assert(mounts_it(once, ws, i)) by {
            assert forall|j: int| 0 <= j < i implies (#[trigger] once[j]).workspace != ws by {
                assert(ms[j].workspace != ws);
            }
        }
        let k = choose|k: int| mounts_it(once, ws, k);
        assert(mounts_it(once, ws, k));
        assert(k == i);
        assert(once.update(i, repointed(once[i], dir, a)) =~= once);
    } else {
        let n = ms.len() as int;
        assert(forall|j: int| 0 <= j < n ==> (#[trigger] ms[j]).workspace != ws) by {
            lemma_unmounted(ms, ws, n);
        }
        assert(mounts_it(once, ws, n)) by {
            assert forall|j: int| 0 <= j < n implies (#[trigger] once[j]).workspace != ws by {
                assert(once[j] == ms[j]);
            }
        }
        let k = choose|k: int| mounts_it(once, ws, k);
        assert(mounts_it(once, ws, k));
        assert(k == n);
        assert(once.update(n, repointed(once[n], dir, a)) =~= once);
    }
}

proof fn lemma_unmounted(ms: Seq<MountVal>, ws: u128, n: int)
    requires
        0 <= n <= ms.len(),
        !exists|i: int| mounts_it(ms, ws, i),
    ensures
        forall|j: int| 0 <= j < n ==> (#[trigger] ms[j]).workspace != ws,
    decreases n,
{
    if n > 0 {
        lemma_unmounted(ms, ws, n - 1);
        if ms[n - 1].workspace == ws {
            assert(mounts_it(ms, ws, n - 1));
        }
    }
}

/// What is said where the project has no mounts yet.
pub fn unmounted_notices(signed_in: bool) -> (r: Vec<Notice>)
    ensures
        notices(r@) == seq![
            NoticeVal::Next(
                "Add a mount: docli init --workspace <id> --dir <dir> (or run docli init with no flags for the guided setup)"@,
            ),
        ] + (if signed_in {
            Seq::empty()
        } else {
            seq![
                NoticeVal::Next(
                    "Sign in first: docli login - your workspaces are then listed here"@,
                ),
            ]
        }),
{
    let mut out: Vec<Notice> = Vec::new();
    out.push(
        Notice::Next(
            "Add a mount: docli init --workspace <id> --dir <dir> (or run docli init with no flags for the guided setup)".to_owned(),
        ),
    );
    if !signed_in {
        out.push(
            Notice::Next(
                "Sign in first: docli login - your workspaces are then listed here".to_owned(),
            ),
        );
    }
    assert(notices(out@) =~= seq![
        NoticeVal::Next(
            "Add a mount: docli init --workspace <id> --dir <dir> (or run docli init with no flags for the guided setup)"@,
        ),
    ] + (if signed_in {
        Seq::empty()
    } else {
        seq![
            NoticeVal::Next("Sign in first: docli login - your workspaces are then listed here"@),
        ]
    }));
    out
}

/// What is said of ignore lines that are still missing.
pub open spec fn ignore_notices(labels: Seq<Seq<char>>) -> Seq<NoticeVal> {
    if labels.len() == 0 {
        Seq::empty()
    } else {
        seq![
            NoticeVal::Warn(
                "add these lines to .gitignore - otherwise docli sync refuses to run:"@,
            ),
        ] + Seq::new(labels.len(), |i: int| NoticeVal::Detail(labels[i])) + seq![
            NoticeVal::Next("Or let docli append them: docli init --gitignore"@),
        ]
    }
}

/// The directory of a mount, as an ignore line can name it.
#[derive(Debug)]
pub struct IgnorePlace {
    /// It lies in the project's own control directory, whose line covers it.
    pub inside_control: bool,
    /// Its path from the root of the work tree.
    pub rel: String,
}

/// The line that makes git ignore the control directory.
pub open spec fn control_line() -> Seq<char> {
    ".docli/"@
}

/// The ignore lines that the first `k` mounts ask for: a mount that git does not ignore asks for
/// its own line and for that of the control directory.
pub open spec fn mount_lines(
    places: Seq<MountPlace>,
    at: Seq<IgnorePlace>,
    k: int,
) -> Seq<Seq<char>>
    decreases k,
{
    if k <= 0 {
        Seq::empty()
    } else {
        let before = mount_lines(places, at, k - 1);
        if !(places[k - 1].ignore is Missing) {
            before
        } else if at[k - 1].inside_control {
            before.push(control_line())
        } else {
            before.push(at[k - 1].rel@ + "/"@).push(control_line())
        }
    }
}

/// The ignore lines that a project asks for: those of its mounts, and that of the control
/// directory where it lies in the project and git does not ignore it.
pub open spec fn wanted_lines(
    places: Seq<MountPlace>,
    at: Seq<IgnorePlace>,
    p: ProjectPlace,
) -> Seq<Seq<char>> {
    let mounts = mount_lines(places, at, places.len() as int);
    if holds(strs(p.root@), strs(p.control@)) && p.control_ignore is Missing {
        mounts.push(control_line())
    } else {
        mounts
    }
}

/// The line stands in an ignore file.
pub open spec fn has_line(file: Seq<char>, line: Seq<char>) -> bool {
    exists|i: int| 0 <= i < lines_of(file).len() && trim_of(#[trigger] lines_of(file)[i]) == line
}

/// The first `k` lines that are asked for, each once, without those that the file has.
pub open spec fn lacking(want: Seq<Seq<char>>, file: Seq<char>, k: int) -> Seq<Seq<char>>
    decreases k,
{
    if k <= 0 {
        Seq::empty()
    } else {
        let before = lacking(want, file, k - 1);
        if has_line(file, want[k - 1]) || before.contains(want[k - 1]) {
            before
        } else {
            before.push(want[k - 1])
        }
    }
}

/// Each line that is asked for is in the file or in the list, nothing else is in the list, and
/// nothing is in it twice.
proof fn lemma_lacking(want: Seq<Seq<char>>, file: Seq<char>, k: int)
    requires
        0 <= k <= want.len(),
    ensures
        ({
            let r = lacking(want, file, k);
            &&& forall|i: int|
                0 <= i < k ==> has_line(file, #[trigger] want[i]) || r.contains(want[i])
            &&& forall|j: int|
                0 <= j < r.len() ==> want.contains(#[trigger] r[j]) && !has_line(file, r[j])
            &&& r.no_duplicates()
        }),
    decreases k,
{
    if k > 0 {
        lemma_lacking(want, file, k - 1);
        let before = lacking(want, file, k - 1);
        let r = lacking(want, file, k);
        assert(want.contains(want[k - 1]));
        assert forall|i: int| 0 <= i < k implies has_line(file, #[trigger] want[i]) || r.contains(
            want[i],
        ) by {
            if i < k - 1 && !has_line(file, want[i]) {
                let j = choose|j: int| 0 <= j < before.len() && before[j] == want[i];
                assert(r[j] == want[i]);
            } else if i == k - 1 && r.len() > before.len() {
                assert(r[before.len() as int] == want[i]);
            }
        }
    }
}

fn file_has(lines: &Vec<String>, line: &str) -> (r: bool)
    ensures
        r == exists|i: int|
            0 <= i < lines@.len() && trim_of(#[trigger] strs(lines@)[i]) == line@,
{
    for i in 0..lines.len()
        invariant
            forall|j: int| 0 <= j < i ==> trim_of(#[trigger] strs(lines@)[j]) != line@,
    {
        let t = trim(lines[i].as_str());
        assert(strs(lines@)[i as int] == lines@[i as int]@);
        if same(t.as_str(), line) {
            return true;
        }
    }
    false
}

fn lists(v: &Vec<String>, line: &str) -> (r: bool)
    ensures
        r == strs(v@).contains(line@),
{
    for i in 0..v.len()
        invariant
            forall|j: int| 0 <= j < i ==> #[trigger] strs(v@)[j] != line@,
    {
        assert(strs(v@)[i as int] == v@[i as int]@);
        if same(v[i].as_str(), line) {
            return true;
        }
    }
    false
}

fn ask_lines(places: &Vec<MountPlace>, at: &Vec<IgnorePlace>, p: &ProjectPlace) -> (r: Vec<String>)
    requires
        places@.len() == at@.len(),
    ensures
        strs(r@) == wanted_lines(places@, at@, *p),
{
    broadcast use crate::text::lemma_strs_push;

    let mut out: Vec<String> = Vec::new();
    assert(strs(out@) =~= mount_lines(places@, at@, 0));
    for i in 0..places.len()
        invariant
            places@.len() == at@.len(),
            strs(out@) == mount_lines(places@, at@, i as int),
    {
        broadcast use crate::text::lemma_strs_push;

        if let IgnoreState::Missing = places[i].ignore {
            if !at[i].inside_control {
                out.push(cat2(at[i].rel.as_str(), "/"));
            }
            out.push(".docli/".to_owned());
        }
    }
    if let IgnoreState::Missing = p.control_ignore {
        if is_ancestor_or_self(&p.root, &p.control) {
            out.push(".docli/".to_owned());
        }
    }
    out
}

/// What the first `k` mounts ask for, mount by mount.
proof fn lemma_mount_lines(places: Seq<MountPlace>, at: Seq<IgnorePlace>, k: int)
    requires
        places.len() == at.len(),
        0 <= k <= places.len(),
    ensures
        forall|m: int|
            #![trigger places[m]]
            0 <= m < k && places[m].ignore is Missing ==> mount_lines(places, at, k).contains(
                ".docli/"@,
            ) && (!at[m].inside_control ==> mount_lines(places, at, k).contains(
                at[m].rel@ + "/"@,
            )),
        forall|l: Seq<char>| #[trigger]
            mount_lines(places, at, k).contains(l) ==> exists|m: int|
                #![trigger places[m]]
                0 <= m < k && places[m].ignore is Missing && (l == ".docli/"@ || (
                !at[m].inside_control && l == at[m].rel@ + "/"@)),
    decreases k,
{
    if k > 0 {
        lemma_mount_lines(places, at, k - 1);
        let before = mount_lines(places, at, k - 1);
        let r = mount_lines(places, at, k);
        assert forall|l: Seq<char>| before.contains(l) implies #[trigger] r.contains(l) by {
            let j = choose|j: int| 0 <= j < before.len() && before[j] == l;
            assert(r[j] == l);
        }
        if places[k - 1].ignore is Missing {
            assert(r.last() == ".docli/"@);
            if !at[k - 1].inside_control {
                assert(r[before.len() as int] == at[k - 1].rel@ + "/"@);
            }
        }
        assert forall|l: Seq<char>| #[trigger] r.contains(l) implies exists|m: int|
            #![trigger places[m]]
            0 <= m < k && places[m].ignore is Missing && (l == ".docli/"@ || (
            !at[m].inside_control && l == at[m].rel@ + "/"@)) by {
            let j = choose|j: int| 0 <= j < r.len() && r[j] == l;
            if j < before.len() {
                assert(before[j] == l);
                assert(before.contains(l));
            } else {
                assert(places[k - 1].ignore is Missing);
            }
        }
    }
}

/// A mount that git does not ignore ends up ignored: its own line, where it lies outside the
/// control directory, and the line of the control directory each stand in the ignore file or in
/// the list of missing lines, whatever the other mounts ask for.
pub proof fn every_uncovered_mount_gets_its_line(
    places: Seq<MountPlace>,
    at: Seq<IgnorePlace>,
    p: ProjectPlace,
    file: Seq<char>,
    k: int,
)
    requires
        places.len() == at.len(),
        0 <= k < places.len(),
        places[k].ignore is Missing,
    ensures
        ({
            let want = wanted_lines(places, at, p);
            let r = lacking(want, file, want.len() as int);
            &&& !at[k].inside_control ==> r.contains(at[k].rel@ + "/"@) || exists|i: int|
                0 <= i < lines_of(file).len() && trim_of(#[trigger] lines_of(file)[i])
                    == at[k].rel@ + "/"@
            &&& r.contains(".docli/"@) || exists|i: int|
                0 <= i < lines_of(file).len() && trim_of(#[trigger] lines_of(file)[i])
                    == ".docli/"@
        }),
{
    let want = wanted_lines(places, at, p);
    let mounts = mount_lines(places, at, places.len() as int);
    lemma_mount_lines(places, at, places.len() as int);
    lemma_lacking(want, file, want.len() as int);
    assert forall|l: Seq<char>| mounts.contains(l) implies #[trigger] want.contains(l) by {
        let j = choose|j: int| 0 <= j < mounts.len() && mounts[j] == l;
        assert(want[j] == l);
    }
    assert(places[k].ignore is Missing);
    assert(want.contains(".docli/"@));
    let j = choose|j: int| 0 <= j < want.len() && want[j] == ".docli/"@;
    assert(has_line(file, want[j]) || lacking(want, file, want.len() as int).contains(want[j]));
    if !at[k].inside_control {
        assert(want.contains(at[k].rel@ + "/"@));
        let i = choose|i: int| 0 <= i < want.len() && want[i] == at[k].rel@ + "/"@;
        assert(has_line(file, want[i]) || lacking(want, file, want.len() as int).contains(want[i]));
    }
}

/// A control directory in the project that git does not ignore gets its line, with or without a
/// mount.
pub proof fn an_uncovered_control_directory_gets_its_line(
    places: Seq<MountPlace>,
    at: Seq<IgnorePlace>,
    p: ProjectPlace,
    file: Seq<char>,
)
    requires
        places.len() == at.len(),
        p.control_ignore is Missing,
        strs(p.root@).is_prefix_of(strs(p.control@)),
    ensures
        ({
            let want = wanted_lines(places, at, p);
            lacking(want, file, want.len() as int).contains(".docli/"@) || exists|i: int|
                0 <= i < lines_of(file).len() && trim_of(#[trigger] lines_of(file)[i])
                    == ".docli/"@
        }),
{
    let want = wanted_lines(places, at, p);
    assert(strs(p.control@).take(strs(p.root@).len() as int) =~= strs(p.root@));
    lemma_lacking(want, file, want.len() as int);
    assert(want[want.len() - 1] == ".docli/"@);
    assert(has_line(file, want[want.len() - 1]) || lacking(want, file, want.len() as int).contains(
        want[want.len() - 1],
    ));
}

/// Nothing is asked for without need: a line in the list is not in the file, is not in the list
/// twice, and is that of a mount outside the control directory that git does not ignore, or that
/// of the control directory where such a mount, or the directory itself, is not ignored.
pub proof fn only_uncovered_places_get_a_line(
    places: Seq<MountPlace>,
    at: Seq<IgnorePlace>,
    p: ProjectPlace,
    file: Seq<char>,
    j: int,
)
    requires
        places.len() == at.len(),
        0 <= j < lacking(
            wanted_lines(places, at, p),
            file,
            wanted_lines(places, at, p).len() as int,
        ).len(),
    ensures
        ({
            let want = wanted_lines(places, at, p);
            let r = lacking(want, file, want.len() as int);
            &&& forall|i: int|
                0 <= i < lines_of(file).len() ==> trim_of(#[trigger] lines_of(file)[i]) != r[j]
            &&& forall|i: int| 0 <= i < r.len() && i != j ==> #[trigger] r[i] != r[j]
            &&& (exists|m: int|
                #![trigger places[m]]
                0 <= m < places.len() && places[m].ignore is Missing && (r[j] == ".docli/"@ || (
                !at[m].inside_control && r[j] == at[m].rel@ + "/"@))) || (r[j] == ".docli/"@
                && p.control_ignore is Missing)
        }),
{
    let want = wanted_lines(places, at, p);
    let mounts = mount_lines(places, at, places.len() as int);
    let r = lacking(want, file, want.len() as int);
    lemma_mount_lines(places, at, places.len() as int);
    lemma_lacking(want, file, want.len() as int);
    assert(want.contains(r[j]) && !has_line(file, r[j]));
    let i = choose|i: int| 0 <= i < want.len() && want[i] == r[j];
    if i < mounts.len() {
        assert(mounts[i] == r[j]);
        assert(mounts.contains(r[j]));
    }
}

/// The ignore lines that are still missing from `file`, the text of the ignore file.
pub fn missing_lines(
    places: &Vec<MountPlace>,
    at: &Vec<IgnorePlace>,
    p: &ProjectPlace,
    file: &str,
) -> (r: Vec<String>)
    requires
        places@.len() == at@.len(),
    ensures
        ({
            let want = wanted_lines(places@, at@, *p);
            &&& strs(r@) == lacking(want, file@, want.len() as int)
            &&& forall|i: int|
                0 <= i < want.len() ==> has_line(file@, #[trigger] want[i]) || strs(r@).contains(
                    want[i],
                )
            &&& forall|j: int|
                0 <= j < r@.len() ==> want.contains(#[trigger] strs(r@)[j]) && !has_line(
                    file@,
                    strs(r@)[j],
                )
            &&& strs(r@).no_duplicates()
        }),
        forall|k: int|
            #![trigger places@[k]]
            0 <= k < places@.len() && places@[k].ignore is Missing && !at@[k].inside_control
                ==> strs(r@).contains(at@[k].rel@ + "/"@) || exists|i: int|
                0 <= i < lines_of(file@).len() && trim_of(#[trigger] lines_of(file@)[i])
                    == at@[k].rel@ + "/"@,
{
    let want = ask_lines(places, at, p);
    let there = lines(file);
    let ghost all = wanted_lines(places@, at@, *p);
    let mut out: Vec<String> = Vec::new();
    assert(strs(out@) =~= lacking(all, file@, 0));
    for i in 0..want.len()
        invariant
            strs(want@) == all,
            strs(there@) == lines_of(file@),
            strs(out@) == lacking(all, file@, i as int),
    {
        broadcast use crate::text::lemma_strs_push;

        assert(all[i as int] == want@[i as int]@);
        assert(strs(want@).len() == want@.len());
        if !file_has(&there, want[i].as_str()) && !lists(&out, want[i].as_str()) {
            out.push(want[i].clone());
        }
    }
    proof {
        assert(strs(want@).len() == want@.len());
        lemma_lacking(all, file@, all.len() as int);
        assert forall|k: int|
            #![trigger places@[k]]
            0 <= k < places@.len() && places@[k].ignore is Missing
                && !at@[k].inside_control implies strs(out@).contains(at@[k].rel@ + "/"@)
            || exists|i: int|
            0 <= i < lines_of(file@).len() && trim_of(#[trigger] lines_of(file@)[i]) == at@[k].rel@
                + "/"@ by {
            every_uncovered_mount_gets_its_line(places@, at@, *p, file@, k);
        }
    }
    out
}

/// Name the ignore lines that are still missing.
pub fn unignored_notices(labels: &Vec<String>) -> (r: Vec<Notice>)
    ensures
        notices(r@) == ignore_notices(strs(labels@)),
{
    broadcast use crate::report::lemma_notices_push;

    let mut out: Vec<Notice> = Vec::new();
    if labels.len() == 0 {
        assert(notices(out@) =~= ignore_notices(strs(labels@)));
        return out;
    }
    out.push(
        Notice::Warn(
            "add these lines to .gitignore - otherwise docli sync refuses to run:".to_owned(),
        ),
    );
    let ghost head = notices(out@);
    assert(head =~= seq![
        NoticeVal::Warn("add these lines to .gitignore - otherwise docli sync refuses to run:"@),
    ]);
    assert(head + Seq::new(0, |k: int| NoticeVal::Detail(strs(labels@)[k])) =~= head);
    for i in 0..labels.len()
        invariant
            notices(out@) == head + Seq::new(
                i as nat,
                |k: int| NoticeVal::Detail(strs(labels@)[k]),
            ),
    {
        broadcast use crate::report::lemma_notices_push;

        out.push(Notice::Detail(labels[i].clone()));
        assert(notices(out@) =~= head + Seq::new(
            (i + 1) as nat,
            |k: int| NoticeVal::Detail(strs(labels@)[k]),
        ));
    }
    out.push(Notice::Next("Or let docli append them: docli init --gitignore".to_owned()));
    assert(notices(out@) =~= ignore_notices(strs(labels@)));
    out
}

/// The notice that several mounts share one connection.
pub fn one_connection(mounts: usize) -> (r: Option<Notice>)
    ensures
        match r {
            Some(n) => mounts > 1 && n.view() == NoticeVal::Detail(
                "This project mounts "@ + decimal_of(mounts as nat)
                    + " workspaces but uses ONE MCP connection: which of them the agent can reach is chosen during the browser consent."@,
            ),
            None => mounts <= 1,
        },
{
    if mounts <= 1 {
        return None;
    }
    let n = decimal(mounts as u64);
    Some(
        Notice::Detail(
            cat3(
                "This project mounts ",
                n.as_str(),
                " workspaces but uses ONE MCP connection: which of them the agent can reach is chosen during the browser consent.",
            ),
        ),
    )
}

/// What is said of hooks once they are installed: what they refuse, and what they do not cover.
pub fn hooks_limit() -> (r: Notice)
    ensures
        r.view() == NoticeVal::Detail(
            "docli will now refuse writes into the mirror from these agents' file-editing tools. Shell writes (`sed -i`, `>`) are NOT covered, on either agent, and no other agent gets enforcement at all - they get the contract as advice."@,
        ),
{
    Notice::Detail(
        "docli will now refuse writes into the mirror from these agents' file-editing tools. Shell writes (`sed -i`, `>`) are NOT covered, on either agent, and no other agent gets enforcement at all - they get the contract as advice.".to_owned(),
    )
}

/// The last lines: the next command, and how agents are wired.
pub open spec fn closing_of(vendor: Vendor, mounted: bool, hint: bool) -> Seq<NoticeVal> {
    (if mounted {
        seq![NoticeVal::Next("Sync: docli sync"@)]
    } else {
        Seq::empty()
    }) + (if hint {
        seq![
            NoticeVal::Next(
                "Wire this project's MCP connection into agents: docli init --mcp auto (or a list: "@
                    + vendor.key@ + ",codex,gemini,...)"@,
            ),
        ]
    } else {
        Seq::empty()
    })
}

pub fn closing(vendor: Vendor, mounted: bool, hint: bool) -> (r: Vec<Notice>)
    ensures
        notices(r@) == closing_of(vendor, mounted, hint),
{
    let mut out: Vec<Notice> = Vec::new();
    if mounted {
        out.push(Notice::Next("Sync: docli sync".to_owned()));
    }
    if hint {
        out.push(
            Notice::Next(
                cat3(
                    "Wire this project's MCP connection into agents: docli init --mcp auto (or a list: ",
                    vendor.key,
                    ",codex,gemini,...)",
                ),
            ),
        );
    }
    assert(notices(out@) =~= closing_of(vendor, mounted, hint));
    out
}

/// The frontmatter of a skill: what stands between its first two lines of dashes.
pub open spec fn frontmatter(skill: Seq<char>) -> Option<Seq<char>> {
    match after_prefix(skill, "---\n"@) {
        None => None,
        Some(body) => match find_sub(body, "\n---"@) {
            None => None,
            Some(end) => Some(body.subrange(0, end)),
        },
    }
}

/// A line that begins a key.
pub open spec fn begins_key(line: Seq<char>) -> bool {
    match split_once_of(line, ':') {
        Some((k, _)) => k.len() > 0 && !is_white(k[0]),
        None => false,
    }
}

/// A value with the lines that continue it.
pub open spec fn continued(value: Seq<char>, lines: Seq<Seq<char>>) -> Seq<char>
    decreases lines.len(),
{
    if lines.len() == 0 || begins_key(lines[0]) || trim_of(lines[0]).len() == 0 {
        value
    } else {
        continued(value + " "@ + trim_of(lines[0]), lines.drop_first())
    }
}

/// The description among the lines of a frontmatter.
pub open spec fn described(lines: Seq<Seq<char>>) -> Option<Seq<char>>
    decreases lines.len(),
{
    if lines.len() == 0 {
        None
    } else {
        match after_prefix(lines[0], "description:"@) {
            Some(v) => Some(continued(trim_of(v), lines.drop_first())),
            None => described(lines.drop_first()),
        }
    }
}

/// The description of a skill, and nothing behind it: the lines that continue the value belong
/// to it, the next key does not.
pub fn skill_description(skill_md: &str) -> (r: Option<String>)
    ensures
        opt_str(r) == (match frontmatter(skill_md@) {
            Some(front) => described(lines_of(front)),
            None => None,
        }),
{
    let body: String = match strip_prefix(skill_md, "---\n") {
        Some(b) => b,
        None => {
            return None;
        },
    };
    let v = chars_of(body.as_str());
    let mark = chars_of("\n---");
    let end: usize = match find_in(&v, &mark) {
        Some(i) => i,
        None => {
            return None;
        },
    };
    let front = crate::text::string_between(&v, 0, end);
    let all = lines(front.as_str());
    let ghost ls = lines_of(front@);
    let n: usize = all.len();
    let mut i: usize = 0;
    assert(ls.skip(0) =~= ls);
    while i < n
        invariant
            n == all@.len(),
            i <= n,
            strs(all@) == ls,
            described(ls) == described(ls.skip(i as int)),
            frontmatter(skill_md@) == Some(front@),
            ls == lines_of(front@),
        decreases n - i,
    {
        assert(ls.skip(i as int)[0] == all@[i as int]@);
        assert(ls.skip(i as int).drop_first() =~= ls.skip(i + 1));
        match strip_prefix(all[i].as_str(), "description:") {
            Some(first) => {
                let mut out = trim(first.as_str());
                let mut j: usize = i + 1;
                while j < n
                    invariant_except_break
                        n == all@.len(),
                        j <= n,
                        strs(all@) == ls,
                        described(ls) == Some(continued(out@, ls.skip(j as int))),
                    ensures
                        described(ls) == Some(out@),
                    decreases n - j,
                {
                    assert(ls.skip(j as int)[0] == all@[j as int]@);
                    assert(ls.skip(j as int).drop_first() =~= ls.skip(j + 1));
                    let t = trim(all[j].as_str());
                    if starts_key(all[j].as_str()) || t.as_str().is_empty() {
                        break;
                    }
                    let ghost before = out@;
                    out.push_str(" ");
                    out.push_str(t.as_str());
                    assert(out@ =~= before + " "@ + t@);
                    j = j + 1;
                }
                return Some(out);
            },
            None => {},
        }
        i = i + 1;
    }
    None
}

fn starts_key(line: &str) -> (r: bool)
    ensures
        r == begins_key(line@),
{
    match split_once(line, ':') {
        Some((k, _)) => {
            let v = chars_of(k.as_str());
            v.len() > 0 && !is_whitespace(v[0])
        },
        None => false,
    }
}

} // verus!
