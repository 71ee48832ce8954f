//! What the listings show, stated over the nodes, tags and mounts that they are made from.

use vstd::prelude::*;

use crate::config::mounts_of;
use crate::config::DocliToml;
use crate::config::MountVal;
use crate::graph::an_id_finds_its_node;
use crate::graph::ids_are_unique;
use crate::graph::is_tagged;
use crate::graph::WireGraph;
use crate::graph_cmd::a_listing_shows_what_is_asked_for;
use crate::graph_cmd::absence;
use crate::graph_cmd::ahead;
use crate::graph_cmd::all_rendered;
use crate::graph_cmd::exit_of;
use crate::graph_cmd::is_answered;
use crate::graph_cmd::is_tag_table;
use crate::graph_cmd::listed;
use crate::graph_cmd::parent_path;
use crate::graph_cmd::rendered;
use crate::graph_cmd::row_lines;
use crate::graph_cmd::unmirrored;
use crate::graph_cmd::uses;
use crate::graph_cmd::wanted_of;
use crate::graph_cmd::GraphSlot;
use crate::graph_cmd::MountAnswer;
use crate::graph_cmd::Row;
use crate::graph_cmd::Shown;
use crate::graph_cmd::StateRead;
use crate::graph_cmd::Verb;
use crate::http::WorkspaceVal;
use crate::ids::id_text;
use crate::list_cmd::mount_of;
use crate::list_cmd::mounted_count;
use crate::list_cmd::mounts_here;
use crate::list_cmd::row_of;
use crate::list_cmd::RowVal;
use crate::report::NoticeVal;
use crate::text::text_lt;
use crate::text::trim_end_char_of;
use crate::text::trim_start_char_of;

verus! {

/// The parent of what stands in a folder is the folder, and what stands in none has the root for its
/// parent.
pub proof fn the_parent_is_what_stands_before_the_name(dir: Seq<char>, name: Seq<char>)
    requires
        !name.contains('/'),
    ensures
        parent_path(dir + seq!['/'] + name) == dir,
        parent_path(name).len() == 0,
    decreases name.len(),
{
    let path = dir + seq!['/'] + name;
    if name.len() == 0 {
        assert(path.drop_last() =~= dir);
    } else {
        let rest = name.drop_last();
        assert(name[name.len() - 1] == name.last());
        assert(name.contains(name.last()));
        assert(!rest.contains('/')) by {
            if rest.contains('/') {
                let i = choose|i: int| 0 <= i < rest.len() && rest[i] == '/';
                assert(name[i] == '/');
            }
        }
        the_parent_is_what_stands_before_the_name(dir, rest);
        assert(path.drop_last() =~= dir + seq!['/'] + rest);
    }
}

proof fn lemma_parent_spells(path: Seq<char>)
    ensures
        path.contains('/') ==> exists|name: Seq<char>|
            !name.contains('/') && path == #[trigger] (parent_path(path) + seq!['/'] + name),
        !path.contains('/') ==> parent_path(path).len() == 0,
    decreases path.len(),
{
    if path.len() > 0 {
        let rest = path.drop_last();
        if path.last() == '/' {
            assert(path[path.len() - 1] == '/');
            assert(path =~= parent_path(path) + seq!['/'] + Seq::empty());
            assert(!Seq::<char>::empty().contains('/'));
        } else {
            lemma_parent_spells(rest);
            if path.contains('/') {
                let i = choose|i: int| 0 <= i < path.len() && path[i] == '/';
                assert(rest[i] == '/');
                assert(rest.contains('/'));
                let name = choose|name: Seq<char>|
                    !name.contains('/') && rest == #[trigger] (parent_path(rest) + seq!['/']
                        + name);
                let more = name.push(path.last());
                assert(!more.contains('/')) by {
                    if more.contains('/') {
                        let j = choose|j: int| 0 <= j < more.len() && more[j] == '/';
                        assert(name[j] == '/');
                    }
                }
                assert(path =~= rest.push(path.last()));
                assert(parent_path(path) == parent_path(rest));
                assert((parent_path(rest) + seq!['/'] + name).push(path.last()) =~= parent_path(
                    path,
                ) + seq!['/'] + more);
            } else {
                if rest.contains('/') {
                    let i = choose|i: int| 0 <= i < rest.len() && rest[i] == '/';
                    assert(path[i] == '/');
                }
            }
        }
    } else {
        assert(!path.contains('/'));
    }
}

proof fn lemma_trim_start(s: Seq<char>, core: Seq<char>, n: nat)
    requires
        n <= s.len(),
        s.skip(n as int) == core,
        forall|i: int| 0 <= i < n ==> s[i] == '/',
        core.len() > 0 ==> core[0] != '/',
    ensures
        trim_start_char_of(s, '/') == core,
    decreases n,
{
    if n == 0 {
        assert(s =~= core);
    } else {
        assert(s[0] == '/');
        let r = s.drop_first();
        assert(r.skip(n - 1) =~= core);
        assert forall|i: int| 0 <= i < n - 1 implies r[i] == '/' by {
            assert(s[i + 1] == '/');
        }
        lemma_trim_start(r, core, (n - 1) as nat);
    }
}

proof fn lemma_trim_end(s: Seq<char>, core: Seq<char>, n: nat)
    requires
        s.len() == core.len() + n,
        s.take(core.len() as int) == core,
        forall|i: int| core.len() <= i < s.len() ==> s[i] == '/',
        core.len() > 0 ==> core.last() != '/',
    ensures
        trim_end_char_of(s, '/') == core,
    decreases n,
{
    if n == 0 {
        assert(s =~= core);
    } else {
        assert(s[s.len() - 1] == '/');
        let r = s.drop_last();
        assert(r.take(core.len() as int) =~= core);
        lemma_trim_end(r, core, (n - 1) as nat);
    }
}

/// The folder of a listing is meant without the slashes around it, however many there are.
pub proof fn slashes_around_a_folder_do_not_count(folder: Seq<char>, before: nat, behind: nat)
    requires
        folder.len() > 0,
        folder[0] != '/',
        folder.last() != '/',
    ensures
        wanted_of(
            Some(
                Seq::new(before, |i: int| '/') + folder + Seq::new(behind, |i: int| '/'),
            ),
        ) == folder,
{
    let tail = Seq::new(behind, |i: int| '/');
    let s = Seq::new(before, |i: int| '/') + folder + tail;
    let core = folder + tail;
    assert(s.skip(before as int) =~= core);
    lemma_trim_start(s, core, before);
    assert(core.take(folder.len() as int) =~= folder);
    lemma_trim_end(core, folder, behind);
}

/// A listing of a folder shows every live node that stands in it, whatever its kind and name, and
/// nothing that stands elsewhere, neither deeper nor higher.
pub proof fn a_folder_lists_what_stands_in_it(g: WireGraph, folder: String, k: int)
    requires
        folder@.len() > 0,
        folder@[0] != '/',
        folder@.last() != '/',
    ensures
        listed(g, (Verb::Ls { folder: Some(folder) })).contains(k) <==> 0 <= k < g.nodes@.len()
            && !g.nodes@[k].trashed && exists|name: Seq<char>|
            !name.contains('/') && g.nodes@[k].path@ == #[trigger] (folder@ + seq!['/'] + name),
{
    let verb = Verb::Ls { folder: Some(folder) };
    a_listing_shows_what_is_asked_for(g, verb, k);
    lemma_trim_start(folder@, folder@, 0);
    assert(folder@.skip(0) =~= folder@);
    assert(folder@.take(folder@.len() as int) =~= folder@);
    lemma_trim_start(folder@, folder@, 0);
    lemma_trim_end(folder@, folder@, 0);
    assert(wanted_of(Some(folder@)) == folder@);
    if 0 <= k < g.nodes@.len() {
        let path = g.nodes@[k].path@;
        if exists|name: Seq<char>|
            !name.contains('/') && path == #[trigger] (folder@ + seq!['/'] + name) {
            let name = choose|name: Seq<char>|
                !name.contains('/') && path == #[trigger] (folder@ + seq!['/'] + name);
            the_parent_is_what_stands_before_the_name(folder@, name);
        }
        if parent_path(path) == folder@ {
            lemma_parent_spells(path);
            assert(path.contains('/'));
            let name = choose|name: Seq<char>|
                !name.contains('/') && path == #[trigger] (parent_path(path) + seq!['/'] + name);
            assert(path == folder@ + seq!['/'] + name);
        }
    }
}

/// A listing of the root shows every live node whose path has no slash, and no other but one that
/// stands right behind a leading slash.
pub proof fn the_root_lists_what_stands_in_no_folder(g: WireGraph, k: int)
    ensures
        listed(g, (Verb::Ls { folder: None })).contains(k) <==> 0 <= k < g.nodes@.len()
            && !g.nodes@[k].trashed && (!g.nodes@[k].path@.contains('/') || exists|
            name: Seq<char>,
        |
            !name.contains('/') && g.nodes@[k].path@ == #[trigger] (seq!['/'] + name)),
{
    let verb = Verb::Ls { folder: None };
    a_listing_shows_what_is_asked_for(g, verb, k);
    if 0 <= k < g.nodes@.len() {
        let path = g.nodes@[k].path@;
        lemma_parent_spells(path);
        let none = Seq::<char>::empty();
        if path.contains('/') && parent_path(path) == none {
            let name = choose|name: Seq<char>|
                !name.contains('/') && path == #[trigger] (parent_path(path) + seq!['/'] + name);
            assert(path =~= seq!['/'] + name);
        }
        if exists|name: Seq<char>|
            !name.contains('/') && path == #[trigger] (seq!['/'] + name) {
            let name = choose|name: Seq<char>|
                !name.contains('/') && path == #[trigger] (seq!['/'] + name);
            the_parent_is_what_stands_before_the_name(none, name);
            assert(none + seq!['/'] + name =~= path);
        }
        if parent_path(path).len() == 0 {
            assert(parent_path(path) =~= none);
        }
    }
}

/// A tree shows every live node, and a listing by tag every live node that the graph gives that tag,
/// to the letter, and no other.
pub proof fn a_tree_shows_all_and_a_tag_its_own(g: WireGraph, tag: String, k: int)
    requires
        ids_are_unique(g.nodes@),
        g.nodes@.len() <= u32::MAX,
    ensures
        listed(g, Verb::Tree).contains(k) <==> 0 <= k < g.nodes@.len() && !g.nodes@[k].trashed,
        listed(g, (Verb::Tagged { tag })).contains(k) <==> 0 <= k < g.nodes@.len()
            && !g.nodes@[k].trashed && exists|j: int|
            #![trigger g.tags@[j]]
            0 <= j < g.tags@.len() && g.tags@[j].node == k && g.tags@[j].tag@ == tag@,
{
    a_listing_shows_what_is_asked_for(g, Verb::Tree, k);
    a_listing_shows_what_is_asked_for(g, (Verb::Tagged { tag }), k);
    if 0 <= k < g.nodes@.len() {
        an_id_finds_its_node(g, k);
    }
}

/// The notes that have a tag, among the first `n` nodes: the live ones that the graph gives it.
pub open spec fn bearers(g: WireGraph, t: Seq<char>, n: int) -> Set<int> {
    Set::new(
        |k: int|
            0 <= k < n && !g.nodes@[k].trashed && exists|j: int|
                #![trigger g.tags@[j]]
                0 <= j < g.tags@.len() && g.tags@[j].node == k && g.tags@[j].tag@ == t,
    )
}

/// The count of a tag is the number of live notes that have it, however often the graph says so of
/// one of them.
pub proof fn a_tag_counts_its_live_notes_once_each(g: WireGraph, t: Seq<char>, n: nat)
    requires
        ids_are_unique(g.nodes@),
        n <= g.nodes@.len() <= u32::MAX,
    ensures
        bearers(g, t, n as int).finite(),
        uses(g, t, n) == bearers(g, t, n as int).len(),
    decreases n,
{
    if n == 0 {
        assert(bearers(g, t, 0) =~= Set::<int>::empty());
    } else {
        a_tag_counts_its_live_notes_once_each(g, t, (n - 1) as nat);
        let before = bearers(g, t, n - 1);
        let after = bearers(g, t, n as int);
        an_id_finds_its_node(g, n - 1);
        if !g.nodes@[n - 1].trashed && is_tagged(g, g.nodes@[n - 1].id, t) {
            assert(after =~= before.insert(n - 1));
        } else {
            assert(after =~= before);
        }
    }
}

/// A folder that is asked about and does not exist as a live folder is an absence, and never an empty
/// answer; one that exists, and the root, is answered.
pub proof fn a_folder_is_answered_where_it_exists(
    folder: String,
    read: StateRead,
    clean: Seq<char>,
)
    requires
        folder@.len() > 0,
        folder@[0] != '/',
        folder@.last() != '/',
        read is Read,
        read->graph is Held,
    ensures
        ({
            let g = read->graph->Held_0.wire();
            absence((Verb::Ls { folder: Some(folder) }), read, clean) is None <==> exists|i: int|
                #![trigger g.nodes@[i]]
                0 <= i < g.nodes@.len() && !g.nodes@[i].trashed && g.nodes@[i].kind@ == "folder"@
                    && g.nodes@[i].path@ == folder@
        }),
        absence((Verb::Ls { folder: None }), read, clean) is None,
        absence(Verb::Tree, read, clean) is None,
        absence(Verb::Tags, read, clean) is None,
{
    assert(folder@.skip(0) =~= folder@);
    assert(folder@.take(folder@.len() as int) =~= folder@);
    lemma_trim_start(folder@, folder@, 0);
    lemma_trim_end(folder@, folder@, 0);
    assert(wanted_of(Some(folder@)) == folder@);
}

/// A mount that was never synced, one whose state cannot be read and one without a graph is never
/// answered, whatever is asked.
pub proof fn without_a_graph_there_is_no_answer(verb: Verb, read: StateRead, clean: Seq<char>)
    requires
        read is NeverSynced || read is Unreadable || (read is Read && read->graph is Absent),
    ensures
        absence(verb, read, clean) is Some,
{
}

/// One mount without an answer makes the whole run fail, and nothing else does.
pub proof fn one_absence_fails_the_run(answers: Seq<MountAnswer>)
    ensures
        forall|i: int|
            0 <= i < answers.len() && (#[trigger] answers[i]).absent is Some ==> exit_of(answers)
                == 1,
        (forall|i: int| 0 <= i < answers.len() ==> (#[trigger] answers[i]).absent is None)
            ==> exit_of(answers) == 0,
{
}

proof fn lemma_unmirrored(rows: Seq<Row>, n: nat)
    requires
        n <= rows.len(),
    ensures
        unmirrored(rows, n) <= n,
        unmirrored(rows, n) == 0 <==> forall|i: int|
            0 <= i < n ==> (#[trigger] rows[i]).mirrored,
    decreases n,
{
    if n > 0 {
        lemma_unmirrored(rows, (n - 1) as nat);
    }
}

/// A listing prints one line for each row, and one more where some row is not mirrored.
pub proof fn a_listing_prints_every_row(verb: Verb, rows: Seq<Row>, shown: Seq<Seq<char>>)
    requires
        rows.len() > 0,
    ensures
        (forall|i: int| 0 <= i < rows.len() ==> (#[trigger] rows[i]).mirrored) ==> row_lines(
            verb,
            rows,
            shown,
        ).len() == rows.len(),
        (exists|i: int| 0 <= i < rows.len() && !(#[trigger] rows[i]).mirrored) ==> row_lines(
            verb,
            rows,
            shown,
        ).len() == rows.len() + 1,
{
    lemma_unmirrored(rows, rows.len());
}

proof fn lemma_mount_of(mounts: Seq<MountVal>, id: u128, from: int, j: int)
    requires
        0 <= from <= j <= mounts.len(),
        j < mounts.len() ==> mounts[j].workspace == id,
        forall|i: int| from <= i < j ==> (#[trigger] mounts[i]).workspace != id,
    ensures
        mount_of(mounts, id, from) == (if j < mounts.len() {
            Some(mounts[j])
        } else {
            None
        }),
    decreases j - from,
{
    if from < j {
        assert(mounts[from].workspace != id);
        lemma_mount_of(mounts, id, from + 1, j);
    }
}

/// A workspace shows as mounted where some mount of the project is of it, with the directory, unless
/// that is one of our own, and the folder of the first such mount; else it shows as not mounted.
pub proof fn a_workspace_shows_its_first_mount(w: WorkspaceVal, mounts: Seq<MountVal>, j: int)
    requires
        0 <= j <= mounts.len(),
        j < mounts.len() ==> mounts[j].workspace == w.id,
        forall|i: int| 0 <= i < j ==> (#[trigger] mounts[i]).workspace != w.id,
    ensures
        ({
            let row = row_of(w, mounts);
            &&& row.id == id_text(w.id) && row.handle == w.handle && row.name == w.name
            &&& row.mounted <==> j < mounts.len()
            &&& j < mounts.len() && !mounts[j].derived_dir ==> row.mounted_at == Some(mounts[j].dir)
            &&& j < mounts.len() && mounts[j].derived_dir ==> row.mounted_at is None
            &&& j < mounts.len() ==> row.folder == mounts[j].folder
            &&& j == mounts.len() ==> row.mounted_at is None && row.folder is None
        }),
{
    lemma_mount_of(mounts, w.id, 0, j);
}

/// Only the mounts of a project on the server that was asked count, and all of them do; a slash
/// behind the server's address makes no other server of it.
pub proof fn only_mounts_on_the_server_count(c: DocliToml, server: Seq<char>, behind: nat)
    requires
        server.len() > 0,
        server.last() != '/',
    ensures
        c.server@ == server + Seq::new(behind, |i: int| '/') ==> mounts_here(Some(c), server)
            == mounts_of(c.mounts@),
        c.server@.len() > 0 && c.server@.last() != '/' && c.server@ != server ==> mounts_here(
            Some(c),
            server,
        ).len() == 0,
        mounts_here(None, server).len() == 0,
{
    if c.server@ == server + Seq::new(behind, |i: int| '/') {
        assert(c.server@.take(server.len() as int) =~= server);
        lemma_trim_end(c.server@, server, behind);
    }
    if c.server@.len() > 0 && c.server@.last() != '/' {
        assert(c.server@.take(c.server@.len() as int) =~= c.server@);
        lemma_trim_end(c.server@, c.server@, 0);
    }
}

/// The number of mounted workspaces is that of the rows which show as mounted.
pub proof fn the_mounted_are_counted_once_each(rows: Seq<RowVal>, n: nat)
    requires
        n <= rows.len(),
    ensures
        Set::new(|i: int| 0 <= i < n && rows[i].mounted).finite(),
        mounted_count(rows, n) == Set::new(|i: int| 0 <= i < n && rows[i].mounted).len(),
    decreases n,
{
    let after = Set::new(|i: int| 0 <= i < n && rows[i].mounted);
    if n == 0 {
        assert(after =~= Set::<int>::empty());
    } else {
        the_mounted_are_counted_once_each(rows, (n - 1) as nat);
        let before = Set::new(|i: int| 0 <= i < n - 1 && rows[i].mounted);
        if rows[n - 1].mounted {
            assert(after =~= before.insert(n - 1));
        } else {
            assert(after =~= before);
        }
    }
}

/// A table of tags lists each tag that some live note has, once and with the number of those notes:
/// the more used before the less, and of two that are used alike the smaller first.
pub proof fn the_most_used_tag_comes_first(g: WireGraph, v: Seq<(Seq<char>, usize)>, i: int, j: int)
    requires
        is_tag_table(g, v),
        0 <= i < j < v.len(),
    ensures
        v[i].0 != v[j].0,
        v[i].1 >= v[j].1,
        v[i].1 == v[j].1 ==> text_lt(v[i].0, v[j].0),
        v[i].1 > 0 && v[i].1 == uses(g, v[i].0, g.nodes@.len()),
{
    assert(ahead(v[i], v[j]));
    assert(v.contains(v[i]) && v.contains(v[j]));
    assert(v.contains((v[i].0, v[i].1)));
    assert(v.contains((v[j].0, v[j].1)));
    if v[i].0 == v[j].0 {
        assert(v[i].1 == v[j].1);
        crate::text::lemma_text_lt_irreflexive(v[i].0);
    }
}

/// A tag that some live note has stands in the table.
pub proof fn every_used_tag_is_in_the_table(
    g: WireGraph,
    v: Seq<(Seq<char>, usize)>,
    t: Seq<char>,
    n: usize,
)
    requires
        is_tag_table(g, v),
        n == uses(g, t, g.nodes@.len()),
    ensures
        v.contains((t, n)) <==> n > 0,
{
}

/// Where a graph is held, the tags are answered with tags and every other question with rows, which
/// are marked as mirrored where the state tracks their node.
pub proof fn an_answer_fits_its_question(verb: Verb, read: StateRead, r: MountAnswer, i: int)
    requires
        is_answered(verb, read, r),
    ensures
        read matches StateRead::Read { state, graph: GraphSlot::Held(g), unusable } && {
            &&& verb is Tags ==> r.tags is Some && r.rows is None
            &&& !(verb is Tags) ==> r.rows is Some && r.tags is None && (0 <= i
                < r.rows->0@.len() ==> r.rows->0@[i].mirrored == state.nodes@.contains_key(
                r.rows->0@[i].id,
            ))
        },
{
}

proof fn lemma_all_rendered(
    answers: Seq<MountAnswer>,
    verb: Verb,
    show_mount: bool,
    shown: Seq<Shown>,
    n: nat,
    k: int,
    x: NoticeVal,
)
    requires
        0 <= k < n <= answers.len(),
        rendered(answers[k], verb, show_mount, shown[k]).contains(x),
    ensures
        all_rendered(answers, verb, show_mount, shown, n).contains(x),
    decreases n,
{
    let before = all_rendered(answers, verb, show_mount, shown, (n - 1) as nat);
    let told = rendered(answers[n - 1], verb, show_mount, shown[n - 1]);
    if k < n - 1 {
        lemma_all_rendered(answers, verb, show_mount, shown, (n - 1) as nat, k, x);
        let i = choose|i: int| 0 <= i < before.len() && before[i] == x;
        assert((before + told)[i] == x);
    } else {
        let i = choose|i: int| 0 <= i < told.len() && told[i] == x;
        assert((before + told)[before.len() + i] == x);
    }
}

/// Of every mount it is printed why it could not be answered, or what is amiss with its answer, and
/// its name above it where there are several mounts.
pub proof fn every_mount_is_heard_of(
    answers: Seq<MountAnswer>,
    verb: Verb,
    show_mount: bool,
    shown: Seq<Shown>,
    k: int,
    j: int,
)
    requires
        shown.len() == answers.len(),
        0 <= k < answers.len(),
    ensures
        ({
            let out = all_rendered(answers, verb, show_mount, shown, answers.len());
            &&& answers[k].absent matches Some(why) ==> out.contains(NoticeVal::Warn(why@))
            &&& 0 <= j < answers[k].disclosures@.len() ==> out.contains(
                NoticeVal::Warn(answers[k].disclosures@[j].message@),
            )
            &&& show_mount ==> out.contains(NoticeVal::Heading("["@ + shown[k].mount@ + "]"@))
        }),
{
    let n = answers.len();
    let own = rendered(answers[k], verb, show_mount, shown[k]);
    let head = if show_mount {
        1int
    } else {
        0int
    };
    if let Some(why) = answers[k].absent {
        assert(own[head + answers[k].disclosures@.len()] == NoticeVal::Warn(why@));
        lemma_all_rendered(answers, verb, show_mount, shown, n, k, NoticeVal::Warn(why@));
    }
    if 0 <= j < answers[k].disclosures@.len() {
        let x = NoticeVal::Warn(answers[k].disclosures@[j].message@);
        assert(own[head + j] == x);
        lemma_all_rendered(answers, verb, show_mount, shown, n, k, x);
    }
    if show_mount {
        let x = NoticeVal::Heading("["@ + shown[k].mount@ + "]"@);
        assert(own[0] == x);
        lemma_all_rendered(answers, verb, show_mount, shown, n, k, x);
    }
}

proof fn lemma_only_slashes(s: Seq<char>)
    requires
        forall|i: int| 0 <= i < s.len() ==> #[trigger] s[i] == '/',
    ensures
        trim_start_char_of(s, '/').len() == 0,
    decreases s.len(),
{
    if s.len() > 0 {
        assert(s[0] == '/');
        assert forall|i: int| 0 <= i < s.drop_first().len() implies #[trigger] s.drop_first()[i]
            == '/' by {
            assert(s.drop_first()[i] == s[i + 1]);
        }
        lemma_only_slashes(s.drop_first());
    }
}

/// The root is always there, however it is spelled, though no node stands for it.
pub proof fn the_root_is_always_there(folder: String, read: StateRead, clean: Seq<char>)
    requires
        forall|i: int| 0 <= i < folder@.len() ==> #[trigger] folder@[i] == '/',
        read is Read,
        read->graph is Held,
    ensures
        absence((Verb::Ls { folder: Some(folder) }), read, clean) is None,
{
    lemma_only_slashes(folder@);
}

} // verus!
