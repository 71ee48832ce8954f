//! What the setup command makes of its flags, stated over the flags and the table.

use vstd::prelude::*;

use crate::agents::agent_rows;
use crate::agents::row_of;
use crate::agents::AgentDef;
use crate::agents::Vendor;
use crate::agents::MCP_BARE_PATH;
use crate::agents::MCP_LABEL_PATH_PREFIX;
use crate::config::resolved;
use crate::config::table_fault;
use crate::config::MountVal;
use crate::hooks::agent_named;
use crate::hooks::HookAgent;
use crate::init_cmd::closing_of;
use crate::init_cmd::continued;
use crate::init_cmd::described;
use crate::init_cmd::frontmatter;
use crate::init_cmd::hook_agents;
use crate::init_cmd::hooks_named;
use crate::init_cmd::ignore_notices;
use crate::init_cmd::intent_fault;
use crate::init_cmd::intent_notices;
use crate::init_cmd::mounts_it;
use crate::init_cmd::named;
use crate::init_cmd::on_disk;
use crate::init_cmd::plan_fault;
use crate::init_cmd::plan_val;
use crate::init_cmd::recorded_label;
use crate::init_cmd::repoint_notices;
use crate::init_cmd::selected;
use crate::init_cmd::server_after;
use crate::init_cmd::shape_fault;
use crate::init_cmd::skill_agents;
use crate::init_cmd::table_after;
use crate::init_cmd::table_written;
use crate::init_cmd::upserted;
use crate::init_cmd::wired_url;
use crate::init_cmd::ArgsVal;
use crate::init_cmd::Ground;
use crate::init_cmd::HooksVal;
use crate::init_cmd::InitArgs;
use crate::init_cmd::InitErr;
use crate::init_cmd::Named;
use crate::init_cmd::PlanVal;
use crate::labels::hashed_label;
use crate::labels::is_label;
use crate::labels::label_of;
use crate::labels::lowercased;
use crate::report::NoticeVal;
use crate::text::after_prefix;
use crate::text::find_sub;
use crate::text::has_control;
use crate::text::is_first;
use crate::text::is_white;
use crate::text::lemma_first_is_found;
use crate::text::occurs_at;
use crate::text::split_of;
use crate::text::trim_end_char_of;
use crate::text::trim_of;

verus! {

proof fn lemma_first_mount(ms: Seq<MountVal>, ws: u128, i: int)
    requires
        0 <= i < ms.len(),
        ms[i].workspace == ws,
        forall|j: int| 0 <= j < i ==> (#[trigger] ms[j]).workspace != ws,
    ensures
        mounts_it(ms, ws, i),
        forall|k: int| mounts_it(ms, ws, k) ==> k == i,
{
    assert forall|k: int| mounts_it(ms, ws, k) implies k == i by {
        if i < k {
            assert(ms[i].workspace != ws);
        } else if k < i {
            assert(ms[k].workspace != ws);
        }
    }
}

/// A workspace that the table has is re-pointed where it stands: it gets the directory of the flags,
/// a folder and a name only where the flags give them, loses its folder only where they say so, and
/// every other mount stays as it is and where it is.
pub proof fn a_recorded_mount_is_repointed_in_place(
    ms: Seq<MountVal>,
    ws: u128,
    dir: Seq<char>,
    a: ArgsVal,
    i: int,
)
    requires
        0 <= i < ms.len(),
        ms[i].workspace == ws,
        forall|j: int| 0 <= j < i ==> (#[trigger] ms[j]).workspace != ws,
    ensures
        ({
            let t = upserted(ms, ws, dir, a);
            &&& t.len() == ms.len()
            &&& forall|j: int| 0 <= j < ms.len() && j != i ==> #[trigger] t[j] == ms[j]
            &&& t[i].workspace == ws
            &&& t[i].dir == dir
            &&& t[i].derived_dir == ms[i].derived_dir
            &&& a.folder is Some ==> t[i].folder == a.folder
            &&& a.folder is None && a.clear_folder ==> t[i].folder is None
            &&& a.folder is None && !a.clear_folder ==> t[i].folder == ms[i].folder
            &&& a.name is Some ==> t[i].name == a.name
            &&& a.name is None ==> t[i].name == ms[i].name
        }),
        ms[i].dir == dir ==> repoint_notices(ms, ws, dir).len() == 0,
        ms[i].dir != dir ==> repoint_notices(ms, ws, dir).len() == 1,
{
    lemma_first_mount(ms, ws, i);
    let k = choose|k: int| mounts_it(ms, ws, k);
    assert(mounts_it(ms, ws, k));
}

/// A workspace that the table has not is mounted behind the others, which stay as they are.
pub proof fn a_new_mount_comes_last(ms: Seq<MountVal>, ws: u128, dir: Seq<char>, a: ArgsVal)
    requires
        forall|j: int| 0 <= j < ms.len() ==> (#[trigger] ms[j]).workspace != ws,
    ensures
        ({
            let t = upserted(ms, ws, dir, a);
            &&& t.len() == ms.len() + 1
            &&& forall|j: int| 0 <= j < ms.len() ==> #[trigger] t[j] == ms[j]
            &&& t.last().workspace == ws
            &&& t.last().dir == dir
            &&& !t.last().derived_dir
            &&& t.last().folder == a.folder
            &&& t.last().name == a.name
        }),
        repoint_notices(ms, ws, dir).len() == 0,
{
    assert(!exists|i: int| mounts_it(ms, ws, i)) by {
        if exists|i: int| mounts_it(ms, ws, i) {
            let i = choose|i: int| mounts_it(ms, ws, i);
            assert(ms[i].workspace != ws);
        }
    }
}

/// Without a workspace among the flags the table keeps its mounts; with one and without a directory
/// the mount is left to this machine's cache.
pub proof fn a_mount_without_a_directory_gets_the_cache(
    ms: Seq<MountVal>,
    a: ArgsVal,
    cache: Seq<char>,
)
    ensures
        a.workspace is None ==> table_written(ms, a) == ms,
        a.workspace matches Some(ws) ==> table_written(ms, a) == upserted(
            ms,
            ws,
            match a.dir {
                Some(d) => d,
                None => Seq::empty(),
            },
            a,
        ),
        table_after(ms, a, Some(cache)).len() == table_written(ms, a).len(),
        forall|i: int|
            0 <= i < table_written(ms, a).len() ==> #[trigger] table_after(ms, a, Some(cache))[i]
                == resolved(table_written(ms, a)[i], cache),
{
}

/// Another server under recorded mounts is refused, whatever else the flags say; the same server with
/// slashes behind it is no other one, and without mounts any server may be set.
pub proof fn a_server_is_not_switched_under_mounts(
    server: Seq<char>,
    ms: Seq<MountVal>,
    a: ArgsVal,
    cache: Option<Seq<char>>,
    to: Seq<char>,
)
    requires
        a.server == Some(to),
        server.len() > 0,
        server.last() != '/',
    ensures
        to.len() > 0 && to.last() != '/' && to != server && ms.len() > 0 ==> shape_fault(
            server,
            ms,
            a,
            cache,
        ) == Some(InitErr::ServerSwitch(server, to)),
        to == server || to == server + seq!['/'] || ms.len() == 0 ==> !(shape_fault(
            server,
            ms,
            a,
            cache,
        ) matches Some(InitErr::ServerSwitch(_, _))),
        to.len() > 0 && to.last() != '/' ==> server_after(server, a) == to,
        server_after(server, (ArgsVal { server: None, ..a })) == server,
{
    assert(trim_end_char_of(server, '/') == server);
    if to.len() > 0 && to.last() != '/' {
        assert(trim_end_char_of(to, '/') == to);
    }
    if to == server + seq!['/'] {
        assert(to.drop_last() =~= server);
        assert(trim_end_char_of(to, '/') == trim_end_char_of(server, '/'));
    }
}

/// A directory, a folder, a name or the wish to clear a folder says nothing without a workspace, and
/// is refused rather than dropped; with none of them and a home directory there is nothing to refuse.
pub proof fn flags_of_a_mount_need_a_workspace(
    server: Seq<char>,
    ms: Seq<MountVal>,
    a: ArgsVal,
    cache: Option<Seq<char>>,
)
    requires
        a.workspace is None,
        a.server is None,
    ensures
        a.dir is Some ==> shape_fault(server, ms, a, cache) == Some(InitErr::DirAlone),
        a.dir is None && (a.folder is Some || a.name is Some || a.clear_folder) ==> (shape_fault(
            server,
            ms,
            a,
            cache,
        ) matches Some(InitErr::StrayFlags(_, _))),
        a.dir is None && a.folder is None && a.name is None && !a.clear_folder && cache is Some
            ==> shape_fault(server, ms, a, cache) is None,
{
    if a.folder is Some {
        assert(crate::init_cmd::stray_flags(a)[0] == "--folder"@);
    }
    assert(a.name is Some ==> crate::init_cmd::stray_flags(a).len() > 0);
    assert(a.clear_folder ==> crate::init_cmd::stray_flags(a).len() > 0);
}

/// A mount is made where the table that it makes breaks no rule, and only there.
pub proof fn a_mount_is_made_where_the_table_stands(
    server: Seq<char>,
    ms: Seq<MountVal>,
    a: ArgsVal,
    cache: Seq<char>,
)
    requires
        a.workspace is Some,
        a.server is None,
    ensures
        shape_fault(server, ms, a, Some(cache)) is None <==> table_fault(
            table_after(ms, a, Some(cache)),
        ) is None,
{
}

proof fn lemma_row_of(rows: Seq<AgentDef>, key: Seq<char>)
    ensures
        row_of(rows, key) matches Some(d) ==> d.key@ == key && rows.contains(d),
        row_of(rows, key) is None ==> forall|i: int|
            0 <= i < rows.len() ==> (#[trigger] rows[i]).key@ != key,
    decreases rows.len(),
{
    if rows.len() > 0 {
        let rest = rows.drop_first();
        lemma_row_of(rest, key);
        if rows[0].key@ == key {
            assert(rows.contains(rows[0]));
        } else {
            if let Some(d) = row_of(rest, key) {
                let i = choose|i: int| 0 <= i < rest.len() && rest[i] == d;
                assert(rows[i + 1] == d);
            } else {
                assert forall|i: int| 0 <= i < rows.len() implies (#[trigger] rows[i]).key@
                    != key by {
                    if i > 0 {
                        assert(rest[i - 1] == rows[i]);
                    }
                }
            }
        }
    }
}

/// Some row of the table has that key.
pub open spec fn is_key(rows: Seq<AgentDef>, key: Seq<char>) -> bool {
    exists|i: int| 0 <= i < rows.len() && (#[trigger] rows[i]).key@ == key
}

/// A list of agents is read piece by piece: every piece with ink is the key of an agent, less the
/// whitespace around it, and the agents that come out are exactly those, each once where that is
/// asked for; or else the list is refused for a piece that is no agent's key.
pub proof fn a_list_names_every_agent_in_it(
    rows: Seq<AgentDef>,
    pieces: Seq<Seq<char>>,
    once: bool,
)
    ensures
        match named(rows, pieces, once) {
            Named::Keys(keys) => {
                &&& forall|i: int|
                    0 <= i < pieces.len() && trim_of(#[trigger] pieces[i]).len() > 0
                        ==> keys.contains(trim_of(pieces[i])) && is_key(rows, trim_of(pieces[i]))
                &&& forall|k: int|
                    0 <= k < keys.len() ==> exists|i: int|
                        #![trigger pieces[i]]
                        0 <= i < pieces.len() && trim_of(pieces[i]) == #[trigger] keys[k]
                &&& forall|k: int| 0 <= k < keys.len() ==> (#[trigger] keys[k]).len() > 0
                &&& once ==> keys.no_duplicates()
            },
            Named::Unknown(k) => {
                &&& k.len() > 0
                &&& !is_key(rows, k)
                &&& exists|i: int|
                    #![trigger pieces[i]]
                    0 <= i < pieces.len() && trim_of(pieces[i]) == k
            },
        },
    decreases pieces.len(),
{
    if pieces.len() > 0 {
        let rest = pieces.drop_last();
        a_list_names_every_agent_in_it(rows, rest, once);
        let k = trim_of(pieces.last());
        lemma_row_of(rows, k);
        assert(pieces[pieces.len() - 1] == pieces.last());
        match named(rows, rest, once) {
            Named::Unknown(u) => {
                let i = choose|i: int|
                    #![trigger rest[i]]
                    0 <= i < rest.len() && trim_of(rest[i]) == u;
                assert(pieces[i] == rest[i]);
            },
            Named::Keys(before) => {
                if let Named::Keys(keys) = named(rows, pieces, once) {
                    assert forall|q: Seq<char>| before.contains(q) implies #[trigger] keys.contains(
                        q,
                    ) by {
                        let j = choose|j: int| 0 <= j < before.len() && before[j] == q;
                        assert(keys[j] == q);
                    }
                    assert forall|i: int|
                        0 <= i < pieces.len() && trim_of(#[trigger] pieces[i]).len()
                            > 0 implies keys.contains(trim_of(pieces[i])) && is_key(
                        rows,
                        trim_of(pieces[i]),
                    ) by {
                        if i < rest.len() {
                            assert(rest[i] == pieces[i]);
                        } else {
                            let d = row_of(rows, k)->0;
                            assert(d.key@ == k);
                            let j = choose|j: int| 0 <= j < rows.len() && rows[j] == d;
                            assert(rows[j].key@ == k);
                            if !(once && before.contains(k)) {
                                assert(keys[before.len() as int] == k);
                            }
                        }
                    }
                    assert forall|j: int| 0 <= j < keys.len() implies exists|i: int|
                        #![trigger pieces[i]]
                        0 <= i < pieces.len() && trim_of(pieces[i]) == #[trigger] keys[j] by {
                        if j < before.len() {
                            assert(keys[j] == before[j]);
                            let i = choose|i: int|
                                #![trigger rest[i]]
                                0 <= i < rest.len() && trim_of(rest[i]) == before[j];
                            assert(pieces[i] == rest[i]);
                        }
                    }
                }
            },
        }
    }
}

/// What `--mcp` asks for: nothing where it is blank or `none`, what was detected where it is `auto`,
/// and the agents of its list elsewhere; without the flag the reader is asked, or told how, where
/// there is nobody to ask.
pub proof fn the_connection_flag_means_what_it_says(
    vendor: Vendor,
    mcp: Option<Seq<char>>,
    may_ask: bool,
    found: Seq<Seq<char>>,
    picked: Seq<Seq<char>>,
)
    ensures
        mcp == Some("none"@) || mcp == Some(Seq::<char>::empty()) ==> plan_val(vendor, mcp, may_ask)
            is Skip,
        mcp == Some("auto"@) ==> plan_val(vendor, mcp, may_ask) is Auto,
        mcp is None && may_ask ==> plan_val(vendor, mcp, may_ask) is Prompt,
        mcp is None && !may_ask ==> plan_val(vendor, mcp, may_ask) is Hint,
        selected(PlanVal::Skip, found, picked).len() == 0,
        selected(PlanVal::Hint, found, picked).len() == 0,
        selected(PlanVal::Prompt, found, picked) == picked,
        selected(PlanVal::Auto, found, picked) == found,
        forall|keys: Seq<Seq<char>>| #[trigger]
            selected(PlanVal::Keys(keys), found, picked) == keys,
{
    reveal_strlit("none");
    reveal_strlit("auto");
    assert("none"@[0] == 'n' && "auto"@[0] == 'a');
}

/// The list of `--mcp` selects every agent that it names, however many.
pub proof fn the_connection_flag_selects_every_agent_of_its_list(
    vendor: Vendor,
    m: Seq<char>,
    may_ask: bool,
    i: int,
    j: int,
)
    requires
        m != "none"@,
        m != "auto"@,
        m.len() > 0,
        0 <= i < split_of(m, ',').len(),
        trim_of(split_of(m, ',')[i]).len() > 0,
        named(agent_rows(vendor), split_of(m, ','), false) is Keys,
    ensures
        plan_val(vendor, Some(m), may_ask) matches PlanVal::Keys(keys) && keys.contains(
            trim_of(split_of(m, ',')[i]),
        ),
{
    a_list_names_every_agent_in_it(agent_rows(vendor), split_of(m, ','), false);
}

/// The skill goes to the agents that were detected, unless the flag names others or none.
pub proof fn the_skill_goes_to_what_was_detected(
    vendor: Vendor,
    skills: Option<Seq<char>>,
    found: Seq<Seq<char>>,
)
    ensures
        skills is None || skills == Some("auto"@) ==> skill_agents(vendor, skills, found)
            == Named::Keys(found),
        skills == Some("none"@) || skills == Some(Seq::<char>::empty()) ==> skill_agents(
            vendor,
            skills,
            found,
        ) == Named::Keys(Seq::empty()),
        skills matches Some(s) && s != "auto"@ && s != "none"@ && s.len() > 0 ==> skill_agents(
            vendor,
            skills,
            found,
        ) == named(agent_rows(vendor), split_of(skills->0, ','), true),
{
    reveal_strlit("none");
    reveal_strlit("auto");
    assert("none"@[0] == 'n' && "auto"@[0] == 'a');
}

/// Hooks are never installed unasked: without the flag, and with a blank one or `none`, no agent gets
/// them; with `auto` each agent that can have them and was detected does.
pub proof fn hooks_are_never_installed_unasked(
    vendor: Vendor,
    hooks: Option<Seq<char>>,
    found: Seq<Seq<char>>,
)
    ensures
        hooks is None || hooks == Some("none"@) || hooks == Some(Seq::<char>::empty())
            ==> hook_agents(vendor, hooks, found) == HooksVal::Agents(Seq::empty()),
        hooks == Some("auto"@) ==> (hook_agents(vendor, hooks, found) matches HooksVal::Agents(v)
            && (v.contains(HookAgent::ClaudeCode(vendor)) <==> found.contains(vendor.key@)) && (
        v.contains(HookAgent::Codex) <==> found.contains("codex"@))),
{
    reveal_strlit("none");
    reveal_strlit("auto");
    assert("none"@[0] == 'n' && "auto"@[0] == 'a');
    if hooks == Some("auto"@) {
        let v = hook_agents(vendor, hooks, found)->Agents_0;
        if found.contains(vendor.key@) {
            assert(v[0] == HookAgent::ClaudeCode(vendor));
        }
        if found.contains("codex"@) {
            assert(v[v.len() - 1] == HookAgent::Codex);
        }
    }
}

/// A list of agents for hooks gives them to every agent that it names, once each, and is refused for
/// an item that names none.
pub proof fn a_hook_list_names_every_agent_in_it(vendor: Vendor, pieces: Seq<Seq<char>>)
    ensures
        match hooks_named(vendor, pieces) {
            HooksVal::Agents(list) => {
                &&& list.no_duplicates()
                &&& forall|i: int|
                    0 <= i < pieces.len() && trim_of(#[trigger] pieces[i]).len() > 0
                        ==> agent_named(vendor, trim_of(pieces[i])) is Some && list.contains(
                        agent_named(vendor, trim_of(pieces[i]))->0,
                    )
                &&& forall|k: int|
                    0 <= k < list.len() ==> exists|i: int|
                        #![trigger pieces[i]]
                        0 <= i < pieces.len() && agent_named(vendor, trim_of(pieces[i])) == Some(
                            #[trigger] list[k],
                        )
            },
            HooksVal::Unknown(k) => agent_named(vendor, k) is None && k.len() > 0 && exists|i: int|
                #![trigger pieces[i]]
                0 <= i < pieces.len() && trim_of(pieces[i]) == k,
        },
    decreases pieces.len(),
{
    if pieces.len() > 0 {
        let rest = pieces.drop_last();
        a_hook_list_names_every_agent_in_it(vendor, rest);
        let k = trim_of(pieces.last());
        assert(pieces[pieces.len() - 1] == pieces.last());
        match hooks_named(vendor, rest) {
            HooksVal::Unknown(u) => {
                let i = choose|i: int|
                    #![trigger rest[i]]
                    0 <= i < rest.len() && trim_of(rest[i]) == u;
                assert(pieces[i] == rest[i]);
            },
            HooksVal::Agents(before) => {
                if let HooksVal::Agents(list) = hooks_named(vendor, pieces) {
                    assert forall|q: HookAgent| before.contains(q) implies #[trigger] list.contains(
                        q,
                    ) by {
                        let j = choose|j: int| 0 <= j < before.len() && before[j] == q;
                        assert(list[j] == q);
                    }
                    assert forall|i: int|
                        0 <= i < pieces.len() && trim_of(#[trigger] pieces[i]).len()
                            > 0 implies agent_named(vendor, trim_of(pieces[i])) is Some
                        && list.contains(agent_named(vendor, trim_of(pieces[i]))->0) by {
                        if i < rest.len() {
                            assert(rest[i] == pieces[i]);
                        } else {
                            let a = agent_named(vendor, k)->0;
                            if !before.contains(a) {
                                assert(list[before.len() as int] == a);
                            }
                        }
                    }
                    assert forall|j: int| 0 <= j < list.len() implies exists|i: int|
                        #![trigger pieces[i]]
                        0 <= i < pieces.len() && agent_named(vendor, trim_of(pieces[i])) == Some(
                            #[trigger] list[j],
                        ) by {
                        if j < before.len() {
                            assert(list[j] == before[j]);
                            let i = choose|i: int|
                                #![trigger rest[i]]
                                0 <= i < rest.len() && agent_named(vendor, trim_of(rest[i]))
                                    == Some(before[j]);
                            assert(pieces[i] == rest[i]);
                        }
                    }
                }
            },
        }
    }
}

/// The connection that is wired carries the label of the command line, else the recorded one, else
/// one made from the directory's name, and that label is recorded; a bare connection carries none
/// and leaves the record alone, and so does a run that wires nothing.
pub proof fn the_label_of_the_command_line_comes_first(g: Ground, wire: nat, args: InitArgs)
    requires
        g.server.len() > 0,
        g.server.last() != '/',
    ensures
        wire == 0 ==> wired_url(g, wire, args) is None && recorded_label(g, wire, args)
            == g.stored_label,
        wire > 0 && args.mcp_bare ==> wired_url(g, wire, args) == Some(
            (g.server + MCP_BARE_PATH@, false),
        ) && recorded_label(g, wire, args) == g.stored_label,
        wire > 0 && !args.mcp_bare && args.mcp_label is Some ==> wired_url(g, wire, args) == Some(
            (g.server + MCP_LABEL_PATH_PREFIX@ + args.mcp_label->0@, true),
        ) && recorded_label(g, wire, args) == Some(args.mcp_label->0@),
        wire > 0 && !args.mcp_bare && args.mcp_label is None && g.stored_label is Some ==> wired_url(
            g,
            wire,
            args,
        ) == Some((g.server + MCP_LABEL_PATH_PREFIX@ + g.stored_label->0, true)) && recorded_label(
            g,
            wire,
            args,
        ) == g.stored_label,
        wire > 0 && !args.mcp_bare && args.mcp_label is None && g.stored_label is None
            ==> recorded_label(g, wire, args) == Some(
            label_of(lowercased(g.dir_name), hashed_label(g.dir_name)),
        ) && wired_url(g, wire, args) == Some(
            (
                g.server + MCP_LABEL_PATH_PREFIX@ + label_of(
                    lowercased(g.dir_name),
                    hashed_label(g.dir_name),
                ),
                true,
            ),
        ),
{
    assert(trim_end_char_of(g.server, '/') == g.server);
}

/// A mount is written as it is, but for a directory of this machine's own, which is left out.
pub proof fn a_mount_is_written_as_it_is(m: MountVal)
    ensures
        !m.derived_dir ==> on_disk(m) == m,
        on_disk(m).workspace == m.workspace,
        on_disk(m).folder == m.folder,
        on_disk(m).name == m.name,
        m.derived_dir ==> on_disk(m).dir.len() == 0,
{
}

/// The frontmatter of a skill is what stands between its opening line of dashes and the first line
/// that begins with dashes again.
pub proof fn the_frontmatter_stands_between_the_dashes(front: Seq<char>, rest: Seq<char>)
    requires
        forall|i: int| 0 <= i < front.len() ==> !occurs_at(front + "\n---"@ + rest, "\n---"@, i),
    ensures
        frontmatter("---\n"@ + front + "\n---"@ + rest) == Some(front),
{
    let body = front + "\n---"@ + rest;
    let skill = "---\n"@ + front + "\n---"@ + rest;
    assert(skill =~= "---\n"@ + body);
    crate::text::a_prefix_comes_off_where_it_stands(skill, "---\n"@, body);
    assert(body.subrange(front.len() as int, (front.len() + "\n---"@.len()) as int) =~= "\n---"@);
    assert(occurs_at(body, "\n---"@, front.len() as int));
    assert(is_first(body, "\n---"@, front.len() as int));
    lemma_first_is_found(body, "\n---"@, front.len() as int);
    assert(body.subrange(0, front.len() as int) =~= front);
}

/// The description is the value of the first line that begins with its key, with every line that
/// continues it, up to the next key or a blank line.
pub proof fn the_description_is_that_of_the_first_such_key(
    before: Seq<Seq<char>>,
    value: Seq<char>,
    after: Seq<Seq<char>>,
)
    requires
        forall|i: int|
            0 <= i < before.len() ==> !"description:"@.is_prefix_of(#[trigger] before[i]),
    ensures
        described(before + seq!["description:"@ + value] + after) == Some(
            continued(trim_of(value), after),
        ),
    decreases before.len(),
{
    let all = before + seq!["description:"@ + value] + after;
    if before.len() == 0 {
        assert(all[0] == "description:"@ + value);
        crate::text::a_prefix_comes_off_where_it_stands(all[0], "description:"@, value);
        assert(all.drop_first() =~= after);
    } else {
        assert(all[0] == before[0]);
        let rest = before.drop_first();
        if let Some(v) = after_prefix(all[0], "description:"@) {
            crate::text::a_prefix_comes_off_where_it_stands(all[0], "description:"@, v);
            assert(all[0].subrange(0, "description:"@.len() as int) =~= "description:"@);
            assert("description:"@.is_prefix_of(before[0]));
        }
        assert forall|i: int| 0 <= i < rest.len() implies !"description:"@.is_prefix_of(
            #[trigger] rest[i],
        ) by {
            assert(rest[i] == before[i + 1]);
        }
        the_description_is_that_of_the_first_such_key(rest, value, after);
        assert(all.drop_first() =~= rest + seq!["description:"@ + value] + after);
    }
}

/// A line continues a value where it has ink and begins no key: a key is what stands before a colon,
/// and begins without whitespace.
pub proof fn a_value_goes_on_until_the_next_key(
    value: Seq<char>,
    line: Seq<char>,
    rest: Seq<Seq<char>>,
)
    ensures
        trim_of(line).len() == 0 ==> continued(value, seq![line] + rest) == value,
        line.len() > 0 && line[0] != ':' && !is_white(line[0]) && line.contains(':') ==> continued(
            value,
            seq![line] + rest,
        ) == value,
        trim_of(line).len() > 0 && (!line.contains(':') || is_white(line[0]) || line[0] == ':')
            ==> continued(value, seq![line] + rest) == continued(value + " "@ + trim_of(line), rest),
        continued(value, Seq::empty()) == value,
{
    let all = seq![line] + rest;
    assert(all[0] == line);
    assert(all.drop_first() =~= rest);
    if line.contains(':') {
        let i = choose|i: int| 0 <= i < line.len() && line[i] == ':';
        assert(line.subrange(i, i + 1) =~= seq![':']);
        assert(occurs_at(line, seq![':'], i));
        crate::text::lemma_found_is_first(line, seq![':']);
        let f = find_sub(line, seq![':'])->0;
        assert(occurs_at(line, seq![':'], f));
        if line[0] == ':' {
            assert(line.subrange(0, 1) =~= seq![':']);
            assert(occurs_at(line, seq![':'], 0));
            assert(f == 0);
        } else {
            assert(line.subrange(f, f + 1)[0] == line[f]);
            assert(f > 0);
            assert(line.subrange(0, f)[0] == line[0]);
        }
    } else {
        if let Some(f) = find_sub(line, seq![':']) {
            crate::text::lemma_found_is_first(line, seq![':']);
            assert(line.subrange(f, f + 1)[0] == line[f]);
            assert(line[f] == ':');
        }
    }
    if trim_of(line).len() > 0 && line.len() == 0 {
        assert(line =~= Seq::empty());
    }
}

/// A label of the command line that is too long, or holds anything but lowercase letters, digits and
/// dashes, is refused by its text; one that is not passes, where the connection flag names no list.
pub proof fn a_bad_label_is_refused(vendor: Vendor, args: InitArgs, label: Seq<char>, i: int)
    requires
        args.mcp_label is Some,
        label == args.mcp_label->0@,
    ensures
        label.len() > 64 ==> plan_fault(vendor, args) == Some(InitErr::BadLabel(label)),
        0 <= i < label.len() && !(('a' <= label[i] && label[i] <= 'z') || ('0' <= label[i]
            && label[i] <= '9') || label[i] == '-') ==> plan_fault(vendor, args) == Some(
            InitErr::BadLabel(label),
        ),
        args.mcp is None && label.len() <= 64 && (forall|j: int|
            0 <= j < label.len() ==> ('a' <= #[trigger] label[j] && label[j] <= 'z') || ('0'
                <= label[j] && label[j] <= '9') || label[j] == '-') ==> plan_fault(vendor, args)
            is None,
{
    crate::labels::a_label_is_short_and_plain(label, i);
}

/// Where agents are wired, the server and the label on record are both looked at: a server with a
/// control character is refused, and so is a label on record that is none, unless the command line
/// gives one or asks for the bare address. Where none are wired, neither is.
pub proof fn wiring_needs_a_plain_server_and_label(g: Ground, plan: PlanVal, args: InitArgs)
    requires
        args.skills is None,
        args.hooks is None,
    ensures
        ({
            let wired = selected(plan, g.found, g.picked).len() > 0;
            let fault = intent_fault(g, plan, args);
            let reads_label = !args.mcp_bare && args.mcp_label is None && g.stored_label is Some;
            &&& !wired ==> fault is None
            &&& wired && has_control(g.server) ==> fault == Some(InitErr::ServerControl)
            &&& wired && !has_control(g.server) && reads_label && !is_label(g.stored_label->0)
                ==> fault == Some(InitErr::BadStoredLabel(g.stored_label->0))
            &&& wired && !has_control(g.server) && !(reads_label && !is_label(g.stored_label->0))
                ==> fault is None
        }),
{
}

/// Every line that is missing is told by itself, between the warning and the way to have them added;
/// where none is missing nothing is said.
pub proof fn every_missing_line_is_told(labels: Seq<Seq<char>>, i: int)
    ensures
        labels.len() == 0 ==> ignore_notices(labels).len() == 0,
        0 <= i < labels.len() ==> ignore_notices(labels).len() == labels.len() + 2
            && ignore_notices(labels)[i + 1] == NoticeVal::Detail(labels[i]) && ignore_notices(
            labels,
        )[0] is Warn && ignore_notices(labels).last() is Next,
{
}

/// The last lines name the sync just where something is mounted, and how agents are wired just where
/// that is worth a hint.
pub proof fn the_last_lines_name_what_is_left_to_do(vendor: Vendor, mounted: bool, hint: bool)
    ensures
        closing_of(vendor, mounted, hint).len() == (if mounted {
            1int
        } else {
            0int
        }) + (if hint {
            1int
        } else {
            0int
        }),
        mounted ==> closing_of(vendor, mounted, hint)[0] == NoticeVal::Next("Sync: docli sync"@),
{
}

/// What was asked for and did not happen is told: that no agent was found, and that the flags of the
/// connection had nothing to apply to.
pub proof fn what_did_not_happen_is_told(wire: nat, plan: PlanVal, args: InitArgs)
    ensures
        wire > 0 ==> intent_notices(wire, plan, args).len() == 0,
        wire == 0 && plan is Auto ==> intent_notices(wire, plan, args).contains(
            NoticeVal::Detail("--mcp auto: no coding agents detected here - nothing was wired"@),
        ),
        wire == 0 && (args.mcp_label is Some || args.mcp_bare) ==> intent_notices(
            wire,
            plan,
            args,
        ).contains(
            NoticeVal::Detail("--mcp-label/--mcp-bare do not apply: no agents were selected"@),
        ),
        wire == 0 && !(plan is Auto) && args.mcp_label is None && !args.mcp_bare ==> intent_notices(
            wire,
            plan,
            args,
        ).len() == 0,
{
    let out = intent_notices(wire, plan, args);
    if wire == 0 && plan is Auto {
        assert(out[0] == NoticeVal::Detail(
            "--mcp auto: no coding agents detected here - nothing was wired"@,
        ));
    }
    if wire == 0 && (args.mcp_label is Some || args.mcp_bare) {
        assert(out.last() == NoticeVal::Detail(
            "--mcp-label/--mcp-bare do not apply: no agents were selected"@,
        ));
        assert(out[out.len() - 1] == out.last());
    }
}

} // verus!
