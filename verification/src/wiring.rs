//! What becomes of the agents of a project, stated over the markers, files and mounts that are there.

use vstd::prelude::*;

use crate::agents::codex_of;
use crate::agents::config_path_of;
use crate::agents::detected;
use crate::agents::frontmatter_with;
use crate::agents::globs_of;
use crate::agents::has_meta;
use crate::agents::is_mcp_route;
use crate::agents::is_temp_name;
use crate::agents::marked;
use crate::agents::merge_json_of;
use crate::agents::points_at;
use crate::agents::skill_body;
use crate::agents::skill_copies;
use crate::agents::wire_intro;
use crate::agents::wire_merge;
use crate::agents::wire_step_of;
use crate::agents::wired;
use crate::agents::AgentDef;
use crate::agents::CodexTexts;
use crate::agents::CopyVal;
use crate::agents::MergeVal;
use crate::agents::WireVal;
use crate::agents::MCP_BARE_PATH;
use crate::agents::MCP_LABEL_PATH_PREFIX;
use crate::config::components_of;
use crate::config::Component;
use crate::config::ComponentVal;
use crate::config::Mount;
use crate::json::member_opt;
use crate::json::parsed_json;
use crate::labels::is_label;
use crate::report::NoticeVal;
use crate::text::a_prefix_comes_off_where_it_stands;
use crate::text::after_prefix;
use crate::text::before_suffix;
use crate::text::is_first;
use crate::text::lemma_first_is_found;
use crate::text::occurs_at;
use crate::text::replacing_works_piece_by_piece;
use crate::text::trim_end_char_of;
use crate::text::trim_of;
use crate::toml_text::item_opt;
use crate::toml_text::TomlVal;

verus! {

/// Every agent of which some marker was found, in the project or in the home directory, is detected,
/// and no other: a marker of one agent neither hides nor brings another.
pub proof fn every_marked_agent_is_detected(
    rows: Seq<AgentDef>,
    project: Seq<Seq<char>>,
    home: Option<Seq<Seq<char>>>,
)
    ensures
        forall|i: int|
            #![trigger rows[i]]
            0 <= i < rows.len() && (project.contains(rows[i].project_marker@) || (
            rows[i].other_project_marker is Some && project.contains(
                rows[i].other_project_marker->0@,
            )) || (home is Some && rows[i].home_marker is Some && home->0.contains(
                rows[i].home_marker->0@,
            ))) ==> detected(rows, project, home).contains(rows[i].key),
        forall|k: int|
            0 <= k < detected(rows, project, home).len() ==> exists|i: int|
                #![trigger rows[i]]
                0 <= i < rows.len() && rows[i].key == #[trigger] detected(rows, project, home)[k]
                    && (project.contains(rows[i].project_marker@) || (
                rows[i].other_project_marker is Some && project.contains(
                    rows[i].other_project_marker->0@,
                )) || (home is Some && rows[i].home_marker is Some && home->0.contains(
                    rows[i].home_marker->0@,
                ))),
    decreases rows.len(),
{
    if rows.len() > 0 {
        let rest = rows.drop_last();
        every_marked_agent_is_detected(rest, project, home);
        let before = detected(rest, project, home);
        let all = detected(rows, project, home);
        assert(rows[rows.len() - 1] == rows.last());
        assert forall|q: &'static str| before.contains(q) implies #[trigger] all.contains(q) by {
            let j = choose|j: int| 0 <= j < before.len() && before[j] == q;
            assert(all[j] == q);
        }
        assert forall|i: int|
            #![trigger rows[i]]
            0 <= i < rows.len() && marked(rows[i], project, home) implies all.contains(
            rows[i].key,
        ) by {
            if i < rest.len() {
                assert(rest[i] == rows[i]);
                assert(before.contains(rows[i].key));
            } else {
                assert(all[before.len() as int] == rows[i].key);
            }
        }
        assert forall|k: int| 0 <= k < all.len() implies exists|i: int|
            #![trigger rows[i]]
            0 <= i < rows.len() && rows[i].key == #[trigger] all[k] && marked(
                rows[i],
                project,
                home,
            ) by {
            if k < before.len() {
                assert(all[k] == before[k]);
                let i = choose|i: int|
                    #![trigger rest[i]]
                    0 <= i < rest.len() && rest[i].key == before[k] && marked(
                        rest[i],
                        project,
                        home,
                    );
                assert(rows[i] == rest[i]);
            }
        }
    }
}

/// A connection of a server is the server's address and the bare path, or the path of labels and a
/// label of the grammar, and nothing else.
pub proof fn a_route_is_bare_or_labeled(url: Seq<char>, server: Seq<char>)
    ensures
        is_mcp_route(url, server) <==> (url == server + "/api/mcp"@ || exists|label: Seq<char>|
            label.len() > 0 && is_label(label) && url == #[trigger] (server + "/api/mcp/c/"@
                + label)),
{
    let bare = MCP_BARE_PATH@;
    let pre = MCP_LABEL_PATH_PREFIX@;
    if is_mcp_route(url, server) {
        let path = after_prefix(url, server)->0;
        a_prefix_comes_off_where_it_stands(url, server, path);
        if path != bare {
            let label = after_prefix(path, pre)->0;
            a_prefix_comes_off_where_it_stands(path, pre, label);
            assert(url =~= server + "/api/mcp/c/"@ + label);
        }
    }
    if url == server + "/api/mcp"@ {
        a_prefix_comes_off_where_it_stands(url, server, bare);
    }
    if exists|label: Seq<char>|
        label.len() > 0 && is_label(label) && url == #[trigger] (server + "/api/mcp/c/"@ + label) {
        let label = choose|label: Seq<char>|
            label.len() > 0 && is_label(label) && url == #[trigger] (server + "/api/mcp/c/"@
                + label);
        let path = pre + label;
        assert(url =~= server + path);
        a_prefix_comes_off_where_it_stands(url, server, path);
        a_prefix_comes_off_where_it_stands(path, pre, label);
    }
}

/// Every agent with a configuration file of its own that points at the server is listed as wired, and
/// no other.
pub proof fn every_agent_that_points_here_is_wired(
    rows: Seq<AgentDef>,
    bodies: Seq<Option<Seq<char>>>,
    server: Seq<char>,
)
    requires
        rows.len() <= bodies.len(),
    ensures
        forall|i: int|
            #![trigger rows[i]]
            0 <= i < rows.len() && config_path_of(rows[i]) is Some && bodies[i] is Some
                && points_at(rows[i], bodies[i]->0, server) ==> wired(
                rows,
                bodies,
                server,
            ).contains(rows[i].display@),
        forall|k: int|
            0 <= k < wired(rows, bodies, server).len() ==> exists|i: int|
                #![trigger rows[i]]
                0 <= i < rows.len() && rows[i].display@ == #[trigger] wired(rows, bodies, server)[k]
                    && config_path_of(rows[i]) is Some && bodies[i] is Some && points_at(
                    rows[i],
                    bodies[i]->0,
                    server,
                ),
    decreases rows.len(),
{
    if rows.len() > 0 {
        let rest = rows.drop_last();
        every_agent_that_points_here_is_wired(rest, bodies, server);
        let before = wired(rest, bodies, server);
        let all = wired(rows, bodies, server);
        assert forall|q: Seq<char>| before.contains(q) implies #[trigger] all.contains(q) by {
            let j = choose|j: int| 0 <= j < before.len() && before[j] == q;
            assert(all[j] == q);
        }
        assert forall|i: int|
            #![trigger rows[i]]
            0 <= i < rows.len() && config_path_of(rows[i]) is Some && bodies[i] is Some
                && points_at(rows[i], bodies[i]->0, server) implies all.contains(
            rows[i].display@,
        ) by {
            if i < rest.len() {
                assert(rest[i] == rows[i]);
                assert(before.contains(rows[i].display@));
            } else {
                assert(all[before.len() as int] == rows[i].display@);
            }
        }
        assert forall|k: int| 0 <= k < all.len() implies exists|i: int|
            #![trigger rows[i]]
            0 <= i < rows.len() && rows[i].display@ == #[trigger] all[k] && config_path_of(rows[i])
                is Some && bodies[i] is Some && points_at(rows[i], bodies[i]->0, server) by {
            if k < before.len() {
                assert(all[k] == before[k]);
                let i = choose|i: int|
                    #![trigger rest[i]]
                    0 <= i < rest.len() && rest[i].display@ == before[k] && config_path_of(rest[i])
                        is Some && bodies[i] is Some && points_at(rest[i], bodies[i]->0, server);
                assert(rows[i] == rest[i]);
            } else {
                assert(rows[rows.len() - 1].display@ == all[k]);
            }
        }
    }
}

/// A file is written only where there is room for the entry: one that does not parse, whose root or
/// whose member of that name is no object, is left alone, and so is one that holds the entry already;
/// a file that is missing or blank is always written.
pub proof fn a_file_that_cannot_take_the_entry_is_left_alone(
    existing: Option<Seq<char>>,
    top_key: Seq<char>,
    entry: Seq<char>,
)
    ensures
        ({
            let text = match existing {
                Some(t) => trim_of(t),
                None => Seq::empty(),
            };
            let r = merge_json_of(existing, top_key, entry);
            &&& text.len() == 0 ==> r is Write
            &&& text.len() > 0 && parsed_json(text) is None ==> r is Occupied
            &&& text.len() > 0 && parsed_json(text) is Some && !(parsed_json(text)->0 is Object)
                ==> r is Occupied
            &&& text.len() > 0 && (member_opt(parsed_json(text), top_key) matches Some(v)
                && !(v is Object)) ==> r is Occupied
            &&& text.len() > 0 && member_opt(
                member_opt(parsed_json(text), top_key),
                "docli"@,
            ) is Some ==> !(r is Occupied) && (r == MergeVal::AlreadyConfigured(true) <==> member_opt(
                member_opt(parsed_json(text), top_key),
                "docli"@,
            )->0 == parsed_json(entry)->0)
        }),
{
}

/// An entry that counts as configured is there, to the value.
pub proof fn a_configured_entry_is_there(
    text: Seq<char>,
    top_key: Seq<char>,
    entry: Seq<char>,
)
    requires
        merge_json_of(Some(text), top_key, entry) == MergeVal::AlreadyConfigured(true),
        parsed_json(entry) is Some,
    ensures
        member_opt(member_opt(parsed_json(trim_of(text)), top_key), "docli"@) == parsed_json(entry),
{
}

/// A TOML configuration is written only where there is room for the entry, and an entry that has the
/// address as its one key is left alone.
pub proof fn a_toml_file_that_cannot_take_the_entry_is_left_alone(
    doc: Option<TomlVal>,
    url: Seq<char>,
    texts: CodexTexts,
)
    ensures
        doc is None ==> codex_of(doc, url, texts) is Occupied,
        doc is Some && item_opt(doc, "mcp_servers"@) is None ==> codex_of(doc, url, texts)
            == MergeVal::Write(texts.started),
        codex_of(doc, url, texts) == MergeVal::AlreadyConfigured(true) ==> item_opt(
            item_opt(doc, "mcp_servers"@),
            "docli"@,
        ) is Some,
{
}

/// The file of an agent is written exactly where its merge has a new text for it, at the agent's own
/// path and with that text; everything else is said, and nothing is written.
pub proof fn only_a_merged_text_is_written(
    d: AgentDef,
    read: Result<Option<Seq<char>>, Seq<char>>,
    url: Seq<char>,
)
    ensures
        ({
            let m = wire_merge(d, read, url);
            let step = wire_step_of(d, m, url);
            &&& step is Write <==> (m is Some && (m->0).1 is Write)
            &&& step matches WireVal::Write(path, text, _) ==> m == Some(
                (path, MergeVal::Write(text)),
            )
            &&& read is Err ==> !(step is Write)
        }),
{
}

/// A temporary file is recognised by its name: sixteen lowercase hexadecimal digits between the
/// prefix and the suffix, and nothing else.
pub proof fn a_temporary_name_has_sixteen_digits(name: Seq<char>)
    ensures
        is_temp_name(name) <==> exists|h: Seq<char>|
            name == #[trigger] (".docli-cfg-"@ + h + ".tmp"@) && h.len() == 16 && forall|i: int|
                0 <= i < 16 ==> ('0' <= #[trigger] h[i] && h[i] <= '9') || ('a' <= h[i] && h[i]
                    <= 'f'),
{
    if is_temp_name(name) {
        let rest = after_prefix(name, ".docli-cfg-"@)->0;
        let h = before_suffix(rest, ".tmp"@)->0;
        a_prefix_comes_off_where_it_stands(name, ".docli-cfg-"@, rest);
        a_prefix_comes_off_where_it_stands(rest, ".tmp"@, h);
        assert(name =~= ".docli-cfg-"@ + h + ".tmp"@);
    }
    if exists|h: Seq<char>|
        name == #[trigger] (".docli-cfg-"@ + h + ".tmp"@) && h.len() == 16 && forall|i: int|
            0 <= i < 16 ==> ('0' <= #[trigger] h[i] && h[i] <= '9') || ('a' <= h[i] && h[i]
                <= 'f') {
        let h = choose|h: Seq<char>|
            name == #[trigger] (".docli-cfg-"@ + h + ".tmp"@) && h.len() == 16 && forall|i: int|
                0 <= i < 16 ==> ('0' <= #[trigger] h[i] && h[i] <= '9') || ('a' <= h[i] && h[i]
                    <= 'f');
        let rest = h + ".tmp"@;
        assert(name =~= ".docli-cfg-"@ + rest);
        a_prefix_comes_off_where_it_stands(name, ".docli-cfg-"@, rest);
        a_prefix_comes_off_where_it_stands(rest, ".tmp"@, h);
    }
}

/// A line that is added to a frontmatter stands at its end, and everything else of the text, before
/// it and behind, stays to the letter; a text without a frontmatter stays altogether.
pub proof fn a_frontmatter_line_changes_nothing_else(
    front: Seq<char>,
    rest: Seq<char>,
    line: Seq<char>,
    other: Seq<char>,
)
    requires
        forall|i: int| 0 <= i < front.len() ==> !occurs_at(front + "\n---"@ + rest, "\n---"@, i),
    ensures
        frontmatter_with("---\n"@ + front + "\n---"@ + rest, line) == "---\n"@ + front + "\n"@ + line
            + "---"@ + rest,
        !"---\n"@.is_prefix_of(other) ==> frontmatter_with(other, line) == other,
{
    reveal_strlit("\n---");
    reveal_strlit("\n");
    reveal_strlit("---");
    let body = front + "\n---"@ + rest;
    let skill = "---\n"@ + front + "\n---"@ + rest;
    assert(skill =~= "---\n"@ + body);
    a_prefix_comes_off_where_it_stands(skill, "---\n"@, body);
    assert(body.subrange(front.len() as int, (front.len() + "\n---"@.len()) as int) =~= "\n---"@);
    assert(occurs_at(body, "\n---"@, front.len() as int));
    assert(is_first(body, "\n---"@, front.len() as int));
    lemma_first_is_found(body, "\n---"@, front.len() as int);
    assert(body.subrange(0, front.len() as int) =~= front);
    assert(body.subrange(front.len() as int + 4, body.len() as int) =~= rest);
    if let Some(r) = after_prefix(other, "---\n"@) {
        a_prefix_comes_off_where_it_stands(other, "---\n"@, r);
        assert(other.subrange(0, "---\n"@.len() as int) =~= "---\n"@);
        assert("---\n"@.is_prefix_of(other));
    }
}

/// Every selected agent that has a place for the skill gets a copy there, and no other agent does;
/// the copy is the skill itself, with the globs in its frontmatter only for an agent that takes them.
pub proof fn every_agent_with_a_place_gets_the_skill(
    selected: Seq<AgentDef>,
    skill: Seq<char>,
    globs: Seq<Seq<char>>,
)
    ensures
        forall|i: int|
            #![trigger selected[i]]
            0 <= i < selected.len() && selected[i].skill_copy_dir is Some ==> skill_copies(
                selected,
                skill,
                globs,
            ).contains(
                (CopyVal {
                    display: selected[i].display@,
                    dir: selected[i].skill_copy_dir->0@,
                    text: if selected[i].accepts_claude_frontmatter {
                        skill_body(skill, globs)
                    } else {
                        skill
                    },
                }),
            ),
        forall|k: int|
            0 <= k < skill_copies(selected, skill, globs).len() ==> exists|i: int|
                #![trigger selected[i]]
                0 <= i < selected.len() && selected[i].skill_copy_dir is Some && (
                #[trigger] skill_copies(selected, skill, globs)[k]).dir
                    == selected[i].skill_copy_dir->0@,
        skill_body(skill, Seq::empty()) == skill,
    decreases selected.len(),
{
    if selected.len() > 0 {
        let rest = selected.drop_last();
        every_agent_with_a_place_gets_the_skill(rest, skill, globs);
        let before = skill_copies(rest, skill, globs);
        let all = skill_copies(selected, skill, globs);
        assert(selected[selected.len() - 1] == selected.last());
        assert forall|q: CopyVal| before.contains(q) implies #[trigger] all.contains(q) by {
            let j = choose|j: int| 0 <= j < before.len() && before[j] == q;
            assert(all[j] == q);
        }
        assert forall|i: int|
            #![trigger selected[i]]
            0 <= i < selected.len() && selected[i].skill_copy_dir is Some implies all.contains(
            (CopyVal {
                display: selected[i].display@,
                dir: selected[i].skill_copy_dir->0@,
                text: if selected[i].accepts_claude_frontmatter {
                    skill_body(skill, globs)
                } else {
                    skill
                },
            }),
        ) by {
            if i < rest.len() {
                assert(rest[i] == selected[i]);
            } else {
                assert(all[before.len() as int].dir == selected[i].skill_copy_dir->0@);
            }
        }
        assert forall|k: int| 0 <= k < all.len() implies exists|i: int|
            #![trigger selected[i]]
            0 <= i < selected.len() && selected[i].skill_copy_dir is Some && (
            #[trigger] all[k]).dir == selected[i].skill_copy_dir->0@ by {
            if k < before.len() {
                assert(all[k] == before[k]);
                let i = choose|i: int|
                    #![trigger rest[i]]
                    0 <= i < rest.len() && rest[i].skill_copy_dir is Some && before[k].dir
                        == rest[i].skill_copy_dir->0@;
                assert(selected[i] == rest[i]);
            }
        }
    }
}

proof fn lemma_globs_keep(
    root: Seq<ComponentVal>,
    mounts: Seq<Mount>,
    parts: Seq<Vec<Component>>,
    k: int,
    i: int,
    g: Seq<char>,
)
    requires
        0 <= i < k,
        crate::agents::glob_of(root, mounts[i].dir@, components_of(parts[i]@)) == Some(g),
    ensures
        globs_of(root, mounts, parts, k).contains(g),
    decreases k,
{
    let before = globs_of(root, mounts, parts, k - 1);
    let all = globs_of(root, mounts, parts, k);
    if i < k - 1 {
        lemma_globs_keep(root, mounts, parts, k - 1, i, g);
        let j = choose|j: int| 0 <= j < before.len() && before[j] == g;
        assert(all[j] == g);
    } else if !before.contains(g) {
        assert(all[before.len() as int] == g);
    }
}

/// Every mount that lies in the project at a relative path, without a character that means something
/// in a glob, gives the glob of everything below that path, whatever the other mounts give.
pub proof fn every_mount_in_the_project_gives_its_glob(
    root: Seq<ComponentVal>,
    mounts: Seq<Mount>,
    parts: Seq<Vec<Component>>,
    k: int,
    i: int,
)
    requires
        mounts.len() == parts.len(),
        0 <= i < k <= mounts.len(),
        parts[i]@.len() > 0,
        !(components_of(parts[i]@)[0] is Root),
        mounts[i].dir@.len() > 0,
        mounts[i].dir@.last() != '/',
        !mounts[i].dir@.contains('\\'),
        forall|j: int|
            0 <= j < mounts[i].dir@.len() ==> {
                let c = #[trigger] mounts[i].dir@[j];
                c != '*' && c != '?' && c != '[' && c != ']' && c != '{' && c != '}' && c != '!'
            },
    ensures
        globs_of(root, mounts, parts, k).contains(mounts[i].dir@ + "/**"@),
{
    let dir = mounts[i].dir@;
    assert(trim_end_char_of(dir, '/') == dir);
    replacing_works_piece_by_piece(dir, '\\', "/"@, Seq::empty());
    assert(!has_meta(dir));
    lemma_globs_keep(root, mounts, parts, k, i, dir + "/**"@);
}

/// No glob is listed twice.
pub proof fn no_glob_is_listed_twice(
    root: Seq<ComponentVal>,
    mounts: Seq<Mount>,
    parts: Seq<Vec<Component>>,
    k: int,
)
    ensures
        globs_of(root, mounts, parts, k).no_duplicates(),
    decreases k,
{
    if k > 0 {
        no_glob_is_listed_twice(root, mounts, parts, k - 1);
    }
}

/// Before any agent is wired the address is shown, with a word on what to do where a labeled one is
/// rejected.
pub proof fn the_address_is_shown_before_it_is_wired(url: Seq<char>, labeled: bool)
    ensures
        wire_intro(url, labeled)[1] == NoticeVal::Line("  "@ + url),
        wire_intro(url, labeled).len() == (if labeled {
            4int
        } else {
            3int
        }),
        labeled ==> wire_intro(url, labeled).last() == NoticeVal::Detail(
            "If an agent rejects this labeled URL with invalid_token, re-run with --mcp-bare."@,
        ),
{
}

} // verus!
