//! The mount table: which workspaces a project mirrors and where, and the rules a table has to
//! satisfy before anything is written.
//!
//! Paths are lists of components here. Which of them exist, what they resolve to and how the
//! filesystem spells them is for the caller to find out.

use vstd::prelude::*;

use crate::ids::id_text;
use crate::ids::parse_id;
use crate::ids::parsed_id;
use crate::ids::print_id;
use crate::text::byte_len;
use crate::text::cat2;
use crate::text::cat3;
use crate::text::cat4;
use crate::text::cat5;
use crate::text::contains_control;
use crate::text::has_char;
use crate::text::has_control;
use crate::text::opt_str;
use crate::text::signed;
use crate::text::signed_of;
use crate::text::same;
use crate::text::split;
use crate::text::split_of;
use crate::text::strs;
use crate::text::trim;
use crate::text::trim_end_char;
use crate::text::trim_end_char_of;
use crate::text::trim_of;
use crate::text::utf8_len;

verus! {

pub const CONFIG_NAME: &'static str = "docli.toml";

/// The origin of a project that names none.
pub fn default_server() -> (r: String)
    ensures
        r@ == "https://docli.ru"@,
{
    "https://docli.ru".to_owned()
}

/// One mount: a workspace, and the directory that mirrors it.
#[derive(Debug)]
pub struct Mount {
    /// The workspace id; handles are renamed at will, ids are not.
    pub workspace: u128,
    /// The mount directory; blank means this machine's cache of the workspace.
    pub dir: String,
    /// `dir` was derived from the workspace id and is not to be written down.
    pub derived_dir: bool,
    /// Mirror only this server folder, mapped to the mount root.
    pub folder: Option<String>,
    /// The author's name for the mount.
    pub name: Option<String>,
}

/// The mount table of a project.
#[derive(Debug)]
pub struct DocliToml {
    pub server: String,
    pub mounts: Vec<Mount>,
    /// The connection label that was wired for this project.
    pub mcp_label: Option<String>,
}

/// What a [`Mount`] says.
pub struct MountVal {
    pub workspace: u128,
    pub dir: Seq<char>,
    pub derived_dir: bool,
    pub folder: Option<Seq<char>>,
    pub name: Option<Seq<char>>,
}

impl Mount {
    pub open spec fn view(&self) -> MountVal {
        MountVal {
            workspace: self.workspace,
            dir: self.dir@,
            derived_dir: self.derived_dir,
            folder: opt_str(self.folder),
            name: opt_str(self.name),
        }
    }

    /// The author's name for the mount, or its directory.
    pub fn display_name<'a>(&'a self) -> (r: &'a str)
        ensures
            r@ == shown_name(self.view()),
    {
        match &self.name {
            Some(n) => n.as_str(),
            None => self.dir.as_str(),
        }
    }
}

pub open spec fn shown_name(m: MountVal) -> Seq<char> {
    match m.name {
        Some(n) => n,
        None => m.dir,
    }
}

/// What the mounts of a table say.
pub open spec fn mounts_of(v: Seq<Mount>) -> Seq<MountVal> {
    Seq::new(v.len(), |i: int| v[i].view())
}

/// The first fault among the first `n` items, where `at` gives the fault of each.
pub open spec fn first_fault(n: nat, at: spec_fn(int) -> Option<ConfigError>) -> Option<ConfigError>
    decreases n,
{
    if n == 0 {
        None
    } else {
        match first_fault((n - 1) as nat, at) {
            Some(e) => Some(e),
            None => at(n - 1),
        }
    }
}

proof fn lemma_first_fault(n: nat, m: nat, at: spec_fn(int) -> Option<ConfigError>)
    requires
        n <= m,
        first_fault(n, at) is Some,
    ensures
        first_fault(m, at) == first_fault(n, at),
    decreases m,
{
    if n < m {
        lemma_first_fault(n, (m - 1) as nat, at);
    }
}

/// A field of the table that a reader's terminal would render.
#[derive(Debug, Clone, Copy, PartialEq, Eq)]
pub enum Field {
    Server,
    Dir,
    Name,
    Folder,
}

/// A directory of the control plane.
#[derive(Debug, Clone, Copy, PartialEq, Eq)]
pub enum Reserved {
    Root,
    State,
    Markers,
}

/// Why a table is refused. Mounts are named by their place in the table.
#[derive(Debug, Clone, Copy, PartialEq, Eq)]
pub enum ConfigError {
    /// A field holds a control character.
    ControlCharacter { field: Field },
    /// The table has no mounts.
    NoMounts,
    /// The path or name of a mount holds a control character.
    MountControl { mount: usize },
    /// A mount has a blank display name.
    BlankName { mount: usize },
    /// The display name of a mount is another mount's workspace id.
    IdCollision { mount: usize },
    /// A workspace is mounted a second time, by this mount.
    MountedTwice { mount: usize },
    /// The folder scope of a mount can match no server path.
    BadFolder { mount: usize },
    /// Two mounts overlap.
    Overlap { mount: usize, other: usize },
    /// A mount holds the project's own files.
    ContainsProject { mount: usize },
    /// A mount holds a directory of the control plane.
    ContainsControl { mount: usize, reserved: Reserved },
    /// A mount sits inside an Obsidian vault.
    InVault { mount: usize },
    /// git could not tell whether a mount is ignored.
    GitUnknown { mount: usize },
    /// A mount is inside a work tree and not ignored.
    NotIgnored { mount: usize },
    /// git could not tell whether the control plane is ignored.
    ControlGitUnknown,
    /// The control plane is inside a work tree and not ignored.
    ControlNotIgnored,
    /// A mount without a directory needs a home directory, and there is none.
    NoHome,
}

/// The fields of a mount that hold a control character, in the order they are looked at.
pub open spec fn dirty_field(m: MountVal) -> Option<ConfigError> {
    if has_control(m.dir) {
        Some(ConfigError::ControlCharacter { field: Field::Dir })
    } else if m.name is Some && has_control(m.name->0) {
        Some(ConfigError::ControlCharacter { field: Field::Name })
    } else if m.folder is Some && has_control(m.folder->0) {
        Some(ConfigError::ControlCharacter { field: Field::Folder })
    } else {
        None
    }
}

/// The first field of the table that holds a control character.
pub open spec fn dirty_table(server: Seq<char>, mounts: Seq<MountVal>) -> Option<ConfigError> {
    if has_control(server) {
        Some(ConfigError::ControlCharacter { field: Field::Server })
    } else {
        first_fault(mounts.len(), |i: int| dirty_field(mounts[i]))
    }
}

/// The fault of a result.
pub open spec fn fault_of<T>(r: Result<T, ConfigError>) -> Option<ConfigError> {
    match r {
        Ok(_) => None,
        Err(e) => Some(e),
    }
}

fn opt_has_control(o: &Option<String>) -> (r: bool)
    ensures
        r == (opt_str(*o) is Some && has_control(opt_str(*o)->0)),
{
    match o {
        Some(s) => contains_control(s.as_str()),
        None => false,
    }
}

fn dirty_field_of(m: &Mount) -> (r: Option<ConfigError>)
    ensures
        r == dirty_field(m.view()),
{
    if contains_control(m.dir.as_str()) {
        Some(ConfigError::ControlCharacter { field: Field::Dir })
    } else if opt_has_control(&m.name) {
        Some(ConfigError::ControlCharacter { field: Field::Name })
    } else if opt_has_control(&m.folder) {
        Some(ConfigError::ControlCharacter { field: Field::Folder })
    } else {
        None
    }
}

/// Refuse a table in which any text that is shown to a reader holds a control character.
pub fn refuse_control_characters(config: &DocliToml) -> (r: Result<(), ConfigError>)
    ensures
        fault_of(r) == dirty_table(config.server@, mounts_of(config.mounts@)),
{
    if contains_control(config.server.as_str()) {
        return Err(ConfigError::ControlCharacter { field: Field::Server });
    }
    let ghost ms = mounts_of(config.mounts@);
    let ghost at = |i: int| dirty_field(ms[i]);
    for i in 0..config.mounts.len()
        invariant
            ms == mounts_of(config.mounts@),
            at == (|i: int| dirty_field(ms[i])),
            !has_control(config.server@),
            first_fault(i as nat, at) is None,
    {
        let m = &config.mounts[i];
        let ghost next = (i + 1) as nat;
        assert(ms[i as int] == m.view());
        assert(first_fault(next, at) == dirty_field(m.view()));
        if let Some(e) = dirty_field_of(m) {
            proof {
                lemma_first_fault(next, ms.len(), at);
            }
            return Err(e);
        }
    }
    Ok(())
}

/// Normalize a table that was just read: the origin loses its trailing slashes, and a table with
/// control characters in it is refused.
pub fn parse_config(read: DocliToml) -> (r: Result<DocliToml, ConfigError>)
    ensures
        fault_of(r) == dirty_table(
            trim_end_char_of(read.server@, '/'),
            mounts_of(read.mounts@),
        ),
        r matches Ok(c) ==> {
            &&& c.server@ == trim_end_char_of(read.server@, '/')
            &&& c.mounts == read.mounts
            &&& c.mcp_label == read.mcp_label
        },
{
    let server = trim_end_char(read.server.as_str(), '/');
    let config = DocliToml { server, mounts: read.mounts, mcp_label: read.mcp_label };
    match refuse_control_characters(&config) {
        Ok(_) => Ok(config),
        Err(e) => Err(e),
    }
}

/// The mount with its directory filled in: a blank one becomes the cache of the workspace.
pub open spec fn resolved(m: MountVal, cache: Seq<char>) -> MountVal {
    if trim_of(m.dir).len() == 0 {
        MountVal { dir: cache + id_text(m.workspace), derived_dir: true, ..m }
    } else {
        m
    }
}

/// Does any mount of the table leave its directory out?
pub open spec fn needs_cache(mounts: Seq<MountVal>) -> bool {
    exists|i: int| 0 <= i < mounts.len() && trim_of((#[trigger] mounts[i]).dir).len() == 0
}

/// Fill in every blank directory with this machine's cache of the workspace. `cache` is the path
/// of the cache with a separator at its end, `None` where there is no home directory; it is
/// needed only where a directory is blank.
pub fn resolve_mount_dirs(config: &mut DocliToml, cache: Option<&str>) -> (r: Result<(), ConfigError>)
    ensures
        r is Err <==> cache is None && needs_cache(mounts_of(old(config).mounts@)),
        r matches Err(e) ==> e == ConfigError::NoHome,
        r is Ok ==> !needs_cache(mounts_of(final(config).mounts@)),
        r is Ok ==> mounts_of(final(config).mounts@) == mounts_of(old(config).mounts@).map_values(
            |m: MountVal|
                resolved(
                    m,
                    match cache {
                        Some(c) => c@,
                        None => Seq::empty(),
                    },
                ),
        ),
        final(config).server == old(config).server,
        final(config).mcp_label == old(config).mcp_label,
{
    let ghost before = mounts_of(config.mounts@);
    let ghost c = match cache {
        Some(c) => c@,
        None => Seq::empty(),
    };
    let n: usize = config.mounts.len();
    for i in 0..n
        invariant
            n == config.mounts@.len(),
            before.len() == n,
            config.server == old(config).server,
            config.mcp_label == old(config).mcp_label,
            before == mounts_of(old(config).mounts@),
            c == (match cache {
                Some(c) => c@,
                None => Seq::empty(),
            }),
            cache is None ==> forall|j: int|
                0 <= j < i ==> trim_of((#[trigger] before[j]).dir).len() != 0,
            forall|j: int|
                0 <= j < n ==> (#[trigger] config.mounts@[j]).view() == (if j < i {
                    resolved(before[j], c)
                } else {
                    before[j]
                }),
    {
        assert(config.mounts@[i as int].view() == before[i as int]);
        let bare = trim(config.mounts[i].dir.as_str());
        if bare.as_str().is_empty() {
            match cache {
                None => {
                    assert(trim_of(before[i as int].dir).len() == 0);
                    return Err(ConfigError::NoHome);
                },
                Some(p) => {
                    let id = print_id(config.mounts[i].workspace);
                    let dir = cat2(p, id.as_str());
                    config.mounts[i].dir = dir;
                    config.mounts[i].derived_dir = true;
                },
            }
        }
    }
    assert(mounts_of(config.mounts@) =~= before.map_values(|m: MountVal| resolved(m, c)));
    proof {
        let after = mounts_of(config.mounts@);
        assert forall|i: int| 0 <= i < after.len() implies trim_of((#[trigger] after[i]).dir).len()
            != 0 by {
            lemma_resolved_is_not_blank(before[i], c);
        }
    }
    Ok(())
}

/// A segment that a server folder path can have.
pub open spec fn good_segment(seg: Seq<char>) -> bool {
    &&& seg.len() > 0
    &&& seg != "."@
    &&& seg != ".."@
    &&& !seg.contains('\\')
    &&& !has_control(seg)
    &&& trim_of(seg) == seg
    &&& utf8_len(seg) <= 255
}

/// A folder scope that can match a server path.
pub open spec fn good_folder(f: Seq<char>) -> bool {
    forall|i: int| 0 <= i < split_of(f, '/').len() ==> good_segment(#[trigger] split_of(f, '/')[i])
}

fn segment_ok(seg: &str) -> (r: bool)
    ensures
        r == good_segment(seg@),
{
    let t = trim(seg);
    !seg.is_empty() && !same(seg, ".") && !same(seg, "..") && !has_char(seg, '\\')
        && !contains_control(seg) && same(t.as_str(), seg) && byte_len(seg) <= 255
}

fn folder_ok(f: &str) -> (r: bool)
    ensures
        r == good_folder(f@),
{
    let segs = split(f, '/');
    for i in 0..segs.len()
        invariant
            strs(segs@) == split_of(f@, '/'),
            forall|j: int| 0 <= j < i ==> good_segment(#[trigger] split_of(f@, '/')[j]),
    {
        if !segment_ok(segs[i].as_str()) {
            assert(!good_segment(split_of(f@, '/')[i as int]));
            return false;
        }
    }
    true
}

pub open spec fn control_fault(ms: Seq<MountVal>, i: int) -> Option<ConfigError> {
    if has_control(ms[i].dir) || (ms[i].name is Some && has_control(ms[i].name->0)) {
        Some(ConfigError::MountControl { mount: i as usize })
    } else {
        None
    }
}

/// The trimmed display name, which is what selects a mount and what it is tagged with, must be
/// there and must not be the workspace id of another mount.
pub open spec fn label_fault(ms: Seq<MountVal>, i: int) -> Option<ConfigError> {
    let label = trim_of(shown_name(ms[i]));
    if label.len() == 0 {
        Some(ConfigError::BlankName { mount: i as usize })
    } else if parsed_id(label) is Some && parsed_id(label)->0 != ms[i].workspace && exists|o: int|
        0 <= o < ms.len() && (#[trigger] ms[o]).workspace == parsed_id(label)->0 {
        Some(ConfigError::IdCollision { mount: i as usize })
    } else {
        None
    }
}

pub open spec fn scope_fault(ms: Seq<MountVal>, i: int) -> Option<ConfigError> {
    if exists|o: int| 0 <= o < i && (#[trigger] ms[o]).workspace == ms[i].workspace {
        Some(ConfigError::MountedTwice { mount: i as usize })
    } else if ms[i].folder is Some && !good_folder(ms[i].folder->0) {
        Some(ConfigError::BadFolder { mount: i as usize })
    } else {
        None
    }
}

/// The first of two faults.
pub open spec fn or_else(a: Option<ConfigError>, b: Option<ConfigError>) -> Option<ConfigError> {
    match a {
        Some(e) => Some(e),
        None => b,
    }
}

/// The first rule that a table breaks: it has mounts, none holds control characters, each has a
/// display name that selects no other mount, and each workspace is mounted once under a folder
/// scope that can match.
pub open spec fn table_fault(ms: Seq<MountVal>) -> Option<ConfigError> {
    if ms.len() == 0 {
        Some(ConfigError::NoMounts)
    } else {
        or_else(
            first_fault(ms.len(), |i: int| control_fault(ms, i)),
            or_else(
                first_fault(ms.len(), |i: int| label_fault(ms, i)),
                first_fault(ms.len(), |i: int| scope_fault(ms, i)),
            ),
        )
    }
}

fn mounted_among(mounts: &Vec<Mount>, n: usize, id: u128) -> (r: bool)
    requires
        n <= mounts@.len(),
    ensures
        r == exists|o: int| 0 <= o < n && (#[trigger] mounts_of(mounts@)[o]).workspace == id,
{
    for o in 0..n
        invariant
            n <= mounts@.len(),
            forall|j: int| 0 <= j < o ==> (#[trigger] mounts_of(mounts@)[j]).workspace != id,
    {
        if mounts[o].workspace == id {
            assert(mounts_of(mounts@)[o as int].workspace == id);
            return true;
        }
    }
    false
}

/// The rules on the table itself, which hold whether or not anything is mirrored yet.
pub fn validate_config(config: &DocliToml) -> (r: Result<(), ConfigError>)
    ensures
        fault_of(r) == table_fault(mounts_of(config.mounts@)),
{
    let mounts = &config.mounts;
    let n: usize = mounts.len();
    let ghost ms = mounts_of(mounts@);
    if n == 0 {
        return Err(ConfigError::NoMounts);
    }
    let ghost control = |i: int| control_fault(ms, i);
    let ghost label = |i: int| label_fault(ms, i);
    let ghost scope = |i: int| scope_fault(ms, i);
    for i in 0..n
        invariant
            n == mounts@.len(),
            n > 0,
            ms == mounts_of(mounts@),
            *mounts == config.mounts,
            control == (|i: int| control_fault(ms, i)),
            first_fault(i as nat, control) is None,
    {
        let m = &mounts[i];
        assert(ms[i as int] == m.view());
        assert(first_fault((i + 1) as nat, control) == control_fault(ms, i as int));
        if contains_control(m.dir.as_str()) || opt_has_control(&m.name) {
            proof {
                lemma_first_fault((i + 1) as nat, ms.len(), control);
            }
            return Err(ConfigError::MountControl { mount: i });
        }
    }
    for i in 0..n
        invariant
            n == mounts@.len(),
            n > 0,
            ms == mounts_of(mounts@),
            *mounts == config.mounts,
            control == (|i: int| control_fault(ms, i)),
            label == (|i: int| label_fault(ms, i)),
            first_fault(n as nat, control) is None,
            first_fault(i as nat, label) is None,
    {
        let m = &mounts[i];
        assert(ms[i as int] == m.view());
        assert(first_fault((i + 1) as nat, label) == label_fault(ms, i as int));
        let shown = trim(m.display_name());
        if shown.as_str().is_empty() {
            proof {
                lemma_first_fault((i + 1) as nat, ms.len(), label);
            }
            return Err(ConfigError::BlankName { mount: i });
        }
        if let Some(id) = parse_id(shown.as_str()) {
            if id != m.workspace && mounted_among(mounts, n, id) {
                proof {
                    lemma_first_fault((i + 1) as nat, ms.len(), label);
                }
                return Err(ConfigError::IdCollision { mount: i });
            }
        }
    }
    for i in 0..n
        invariant
            n == mounts@.len(),
            n > 0,
            ms == mounts_of(mounts@),
            *mounts == config.mounts,
            control == (|i: int| control_fault(ms, i)),
            label == (|i: int| label_fault(ms, i)),
            scope == (|i: int| scope_fault(ms, i)),
            first_fault(n as nat, control) is None,
            first_fault(n as nat, label) is None,
            first_fault(i as nat, scope) is None,
    {
        let m = &mounts[i];
        assert(ms[i as int] == m.view());
        assert(first_fault((i + 1) as nat, scope) == scope_fault(ms, i as int));
        if mounted_among(mounts, i, m.workspace) {
            proof {
                lemma_first_fault((i + 1) as nat, ms.len(), scope);
            }
            return Err(ConfigError::MountedTwice { mount: i });
        }
        if let Some(f) = &m.folder {
            if !folder_ok(f.as_str()) {
                proof {
                    lemma_first_fault((i + 1) as nat, ms.len(), scope);
                }
                return Err(ConfigError::BadFolder { mount: i });
            }
        }
    }
    Ok(())
}

/// `a` is `b` or one of its ancestors, component for component.
pub open spec fn holds(a: Seq<Seq<char>>, b: Seq<Seq<char>>) -> bool {
    a.len() <= b.len() && b.take(a.len() as int) == a
}

/// Is the path `b` the path `a`, or inside it? Both are in the spelling of [`geometry_key`].
pub fn is_ancestor_or_self(a: &Vec<String>, b: &Vec<String>) -> (r: bool)
    ensures
        r == holds(strs(a@), strs(b@)),
{
    if a.len() > b.len() {
        return false;
    }
    for i in 0..a.len()
        invariant
            a@.len() <= b@.len(),
            forall|j: int| 0 <= j < i ==> #[trigger] strs(a@)[j] == strs(b@)[j],
    {
        if !same(a[i].as_str(), b[i].as_str()) {
            assert(strs(b@).take(a@.len() as int)[i as int] != strs(a@)[i as int]);
            return false;
        }
    }
    assert(strs(b@).take(a@.len() as int) =~= strs(a@));
    true
}

/// One component of a path.
#[derive(Debug)]
pub enum Component {
    /// A root or a prefix: what an absolute path begins with.
    Root(String),
    CurDir,
    ParentDir,
    Normal(String),
}

/// What a [`Component`] says.
pub enum ComponentVal {
    Root(Seq<char>),
    CurDir,
    ParentDir,
    Normal(Seq<char>),
}

impl Component {
    pub open spec fn view(&self) -> ComponentVal {
        match self {
            Component::Root(s) => ComponentVal::Root(s@),
            Component::CurDir => ComponentVal::CurDir,
            Component::ParentDir => ComponentVal::ParentDir,
            Component::Normal(s) => ComponentVal::Normal(s@),
        }
    }
}

pub open spec fn components_of(v: Seq<Component>) -> Seq<ComponentVal> {
    Seq::new(v.len(), |i: int| v[i].view())
}

broadcast proof fn lemma_components_push(v: Seq<Component>, c: Component)
    ensures
        #[trigger] components_of(v.push(c)) == components_of(v).push(c.view()),
{
    assert(components_of(v.push(c)) =~= components_of(v).push(c.view()));
}

/// The path with `.` left out and each `..` taking back the name before it, without a look at
/// the filesystem; `..` above a root or at the beginning takes back nothing.
pub open spec fn normalized(p: Seq<ComponentVal>) -> Seq<ComponentVal>
    decreases p.len(),
{
    if p.len() == 0 {
        p
    } else {
        let before = normalized(p.drop_last());
        match p.last() {
            ComponentVal::CurDir => before,
            ComponentVal::ParentDir => if before.len() > 0 && before.last() is Normal {
                before.drop_last()
            } else {
                before
            },
            other => before.push(other),
        }
    }
}

fn copy_component(c: &Component) -> (r: Component)
    ensures
        r.view() == c.view(),
{
    match c {
        Component::Root(s) => Component::Root(s.clone()),
        Component::CurDir => Component::CurDir,
        Component::ParentDir => Component::ParentDir,
        Component::Normal(s) => Component::Normal(s.clone()),
    }
}

pub(crate) fn copy_path(p: &Vec<Component>) -> (r: Vec<Component>)
    ensures
        components_of(r@) == components_of(p@),
{
    broadcast use lemma_components_push;

    let mut out: Vec<Component> = Vec::new();
    let ghost ps = components_of(p@);
    assert(components_of(out@) =~= ps.take(0));
    for i in 0..p.len()
        invariant
            ps == components_of(p@),
            components_of(out@) == ps.take(i as int),
    {
        out.push(copy_component(&p[i]));
        assert(ps.take(i + 1) =~= ps.take(i as int).push(ps[i as int]));
    }
    assert(ps.take(ps.len() as int) =~= ps);
    out
}

pub fn lexical_normalize(p: &Vec<Component>) -> (r: Vec<Component>)
    ensures
        components_of(r@) == normalized(components_of(p@)),
{
    let ghost ps = components_of(p@);
    let mut out: Vec<Component> = Vec::new();
    assert(components_of(out@) =~= normalized(ps.take(0)));
    for i in 0..p.len()
        invariant
            ps == components_of(p@),
            components_of(out@) == normalized(ps.take(i as int)),
    {
        assert(ps.take(i + 1).drop_last() =~= ps.take(i as int));
        let ghost before = out@;
        match &p[i] {
            Component::CurDir => {},
            Component::ParentDir => {
                let n: usize = out.len();
                let back: bool = n > 0 && match &out[n - 1] {
                    Component::Normal(_) => true,
                    _ => false,
                };
                if back {
                    assert(components_of(before).last() == before.last().view());
                    out.pop();
                    assert(components_of(out@) =~= components_of(before).drop_last());
                } else {
                    assert(n > 0 ==> components_of(before).last() == before.last().view());
                }
            },
            other => {
                out.push(copy_component(other));
                assert(components_of(out@) =~= components_of(before).push(ps[i as int]));
            },
        }
    }
    assert(ps.take(p@.len() as int) =~= ps);
    out
}

/// The normalized path of a mount: its directory, taken from the project root unless it is
/// absolute.
pub open spec fn mount_path(root: Seq<ComponentVal>, dir: Seq<ComponentVal>) -> Seq<ComponentVal> {
    if dir.len() > 0 && dir[0] is Root {
        normalized(dir)
    } else {
        normalized(root + dir)
    }
}

/// The normalized path of a mount.
pub fn mount_abs(project_root: &Vec<Component>, dir: &Vec<Component>) -> (r: Vec<Component>)
    ensures
        components_of(r@) == mount_path(components_of(project_root@), components_of(dir@)),
{
    if dir.len() > 0 {
        assert(components_of(dir@)[0] == dir@[0].view());
        if let Component::Root(_) = &dir[0] {
            return lexical_normalize(dir);
        }
    }
    let mut joined: Vec<Component> = Vec::new();
    for i in 0..project_root.len()
        invariant
            components_of(joined@) == components_of(project_root@).take(i as int),
    {
        broadcast use lemma_components_push;

        joined.push(copy_component(&project_root[i]));
        assert(components_of(joined@) =~= components_of(project_root@).take(i + 1));
    }
    let ghost base = components_of(project_root@);
    assert(base.take(project_root@.len() as int) =~= base);
    assert(base + components_of(dir@).take(0) =~= base);
    for i in 0..dir.len()
        invariant
            base == components_of(project_root@),
            components_of(joined@) == base + components_of(dir@).take(i as int),
    {
        broadcast use lemma_components_push;

        joined.push(copy_component(&dir[i]));
        assert(components_of(joined@) =~= base + components_of(dir@).take(i + 1));
    }
    assert(components_of(dir@).take(dir@.len() as int) =~= components_of(dir@));
    lexical_normalize(&joined)
}

impl Component {
    /// Are the two components equal?
    pub fn equals(&self, other: &Component) -> (r: bool)
        ensures
            r == (self.view() == other.view()),
    {
        match (self, other) {
            (Component::Root(a), Component::Root(b)) => same(a.as_str(), b.as_str()),
            (Component::CurDir, Component::CurDir) => true,
            (Component::ParentDir, Component::ParentDir) => true,
            (Component::Normal(a), Component::Normal(b)) => same(a.as_str(), b.as_str()),
            _ => false,
        }
    }

    /// The component as it is spelled in a path.
    pub fn text(&self) -> (r: String)
        ensures
            r@ == component_text(self.view()),
    {
        match self {
            Component::Root(s) => s.clone(),
            Component::CurDir => ".".to_owned(),
            Component::ParentDir => "..".to_owned(),
            Component::Normal(s) => s.clone(),
        }
    }
}

pub open spec fn component_text(c: ComponentVal) -> Seq<char> {
    match c {
        ComponentVal::Root(s) => s,
        ComponentVal::CurDir => "."@,
        ComponentVal::ParentDir => ".."@,
        ComponentVal::Normal(s) => s,
    }
}

/// What is left of a path below `root`, with `/` between the components.
pub open spec fn below(root: Seq<ComponentVal>, path: Seq<ComponentVal>) -> Option<Seq<char>> {
    if root.len() <= path.len() && path.take(root.len() as int) == root {
        let rest = path.skip(root.len() as int);
        Some(
            crate::text::join_of(
                Seq::new(rest.len(), |i: int| component_text(rest[i])),
                "/"@,
            ),
        )
    } else {
        None
    }
}

/// The part of a path below `root`.
pub fn path_below(root: &Vec<Component>, path: &Vec<Component>) -> (r: Option<String>)
    ensures
        opt_str(r) == below(components_of(root@), components_of(path@)),
{
    let ghost rs = components_of(root@);
    let ghost ps = components_of(path@);
    let n: usize = root.len();
    if n > path.len() {
        return None;
    }
    for i in 0..n
        invariant
            n == root@.len(),
            n <= path@.len(),
            rs == components_of(root@),
            ps == components_of(path@),
            forall|j: int| 0 <= j < i ==> rs[j] == #[trigger] ps[j],
    {
        assert(rs[i as int] == root@[i as int].view());
        assert(ps[i as int] == path@[i as int].view());
        if !root[i].equals(&path[i]) {
            assert(ps.take(n as int)[i as int] != rs[i as int]);
            return None;
        }
    }
    assert(ps.take(n as int) =~= rs);
    let ghost rest = ps.skip(n as int);
    let mut names: Vec<String> = Vec::new();
    for i in n..path.len()
        invariant
            n <= path@.len(),
            ps == components_of(path@),
            rest == ps.skip(n as int),
            strs(names@) == Seq::new((i - n) as nat, |k: int| component_text(rest[k])),
    {
        broadcast use crate::text::lemma_strs_push;

        assert(rest[i - n] == path@[i as int].view());
        names.push(path[i].text());
        assert(strs(names@) =~= Seq::new((i + 1 - n) as nat, |k: int| component_text(rest[k])));
    }
    assert(strs(names@) =~= Seq::new(rest.len(), |i: int| component_text(rest[i])));
    Some(crate::text::join(&names, "/"))
}

/// The physical form of a path that may not exist yet: what the nearest existing ancestor
/// resolves to, with the rest put back behind it.
pub open spec fn physical(
    path: Seq<Seq<char>>,
    existing: Option<int>,
    resolved_to: Option<Seq<Seq<char>>>,
) -> Seq<Seq<char>> {
    match existing {
        None => path,
        Some(k) => (match resolved_to {
            Some(r) => r,
            None => path.take(k),
        }) + path.skip(k),
    }
}

/// Put the missing part of `path` behind what its first `existing` components resolve to. Where
/// no ancestor exists, or it does not resolve, the path stays as it is spelled.
pub fn physicalize(path: &Vec<String>, existing: Option<usize>, resolved_to: Option<&Vec<String>>) -> (r:
    Vec<String>)
    requires
        existing matches Some(k) ==> k <= path@.len(),
    ensures
        strs(r@) == physical(
            strs(path@),
            crate::text::opt_int(existing),
            match resolved_to {
                Some(v) => Some(strs(v@)),
                None => None,
            },
        ),
{
    let k: usize = match existing {
        None => {
            return crate::text::clone_strs(path);
        },
        Some(k) => k,
    };
    let mut out: Vec<String> = match resolved_to {
        Some(v) => crate::text::clone_strs(v),
        None => {
            let mut head: Vec<String> = Vec::new();
            assert(strs(head@) =~= strs(path@).take(0));
            for i in 0..k
                invariant
                    k <= path@.len(),
                    strs(head@) == strs(path@).take(i as int),
            {
                broadcast use crate::text::lemma_strs_push;

                head.push(path[i].clone());
                assert(strs(head@) =~= strs(path@).take(i + 1));
            }
            head
        },
    };
    let ghost base = strs(out@);
    assert(base + strs(path@).skip(k as int).take(0) =~= base);
    for i in k..path.len()
        invariant
            k <= path@.len(),
            strs(out@) == base + strs(path@).skip(k as int).take(i - k),
    {
        broadcast use crate::text::lemma_strs_push;

        out.push(path[i].clone());
        assert(strs(out@) =~= base + strs(path@).skip(k as int).take(i + 1 - k));
    }
    assert(strs(path@).skip(k as int).take(path@.len() - k) =~= strs(path@).skip(k as int));
    out
}

/// The comparison spelling of a component: its own, or its fold where it is a name and the
/// filesystem folds cases.
pub open spec fn key_name(c: ComponentVal, folded: Option<Seq<Seq<char>>>, i: int) -> Seq<char> {
    match folded {
        Some(f) => if c is Normal && i < f.len() {
            f[i]
        } else {
            component_text(c)
        },
        None => component_text(c),
    }
}

/// The comparison spelling of a path: as it is where the filesystem tells cases apart, and with
/// each name folded where it does not. `folded` holds the fold of each component there.
pub fn geometry_key(path: &Vec<Component>, folded: Option<&Vec<String>>) -> (r: Vec<String>)
    ensures
        strs(r@) == Seq::new(
            path@.len(),
            |i: int|
                key_name(
                    components_of(path@)[i],
                    match folded {
                        Some(f) => Some(strs(f@)),
                        None => None,
                    },
                    i,
                ),
        ),
{
    let mut out: Vec<String> = Vec::new();
    let ghost folds = match folded {
        Some(f) => Some(strs(f@)),
        None => None,
    };
    let ghost want = Seq::new(path@.len(), |i: int| key_name(components_of(path@)[i], folds, i));
    assert(strs(out@) =~= want.take(0));
    for i in 0..path.len()
        invariant
            folds == (match folded {
                Some(f) => Some(strs(f@)),
                None => None,
            }),
            want == Seq::new(path@.len(), |i: int| key_name(components_of(path@)[i], folds, i)),
            strs(out@) == want.take(i as int),
    {
        broadcast use crate::text::lemma_strs_push;

        let name: String = match (&path[i], folded) {
            (Component::Normal(n), Some(f)) => if i < f.len() {
                assert(strs(f@)[i as int] == f@[i as int]@);
                f[i].clone()
            } else {
                n.clone()
            },
            (c, _) => c.text(),
        };
        assert(name@ == want[i as int]);
        out.push(name);
        assert(want.take(i + 1) =~= want.take(i as int).push(want[i as int]));
    }
    assert(want.take(path@.len() as int) =~= want);
    out
}

/// The nearest directory, from a path upwards, for which the answer was yes.
pub open spec fn nearest(answers: Seq<bool>) -> Option<int> {
    if answers.contains(true) {
        Some(choose|i: int| is_nearest(answers, i))
    } else {
        None
    }
}

pub open spec fn is_nearest(answers: Seq<bool>, i: int) -> bool {
    0 <= i < answers.len() && answers[i] && forall|j: int| 0 <= j < i ==> !answers[j]
}

fn first_yes(answers: &Vec<bool>) -> (r: Option<usize>)
    ensures
        crate::text::opt_int(r) == nearest(answers@),
        r matches Some(i) ==> is_nearest(answers@, i as int),
{
    for i in 0..answers.len()
        invariant
            forall|j: int| 0 <= j < i ==> !answers@[j],
    {
        if answers[i] {
            assert(answers@[i as int] == true);
            assert(is_nearest(answers@, i as int));
            proof {
                let k = choose|k: int| is_nearest(answers@, k);
                assert(is_nearest(answers@, k));
                assert(k == i);
            }
            return Some(i);
        }
    }
    None
}

/// The project a directory belongs to: the nearest of it and its ancestors that holds a mount
/// table. `has_config` answers for the directory itself first, then for each parent.
pub fn find_project(has_config: &Vec<bool>) -> (r: Option<usize>)
    ensures
        crate::text::opt_int(r) == nearest(has_config@),
        r matches Some(i) ==> is_nearest(has_config@, i as int),
{
    first_yes(has_config)
}

/// The work tree that governs a directory: the nearest of it and its ancestors that holds a
/// repository.
pub fn find_git_worktree(has_git: &Vec<bool>) -> (r: Option<usize>)
    ensures
        crate::text::opt_int(r) == nearest(has_git@),
        r matches Some(i) ==> is_nearest(has_git@, i as int),
{
    first_yes(has_git)
}

/// What is known of whether git ignores a path.
#[derive(Debug, Clone, Copy, PartialEq, Eq)]
pub enum IgnoreState {
    /// No work tree governs it.
    NotInRepo,
    /// git ignores it, or it lies outside the work tree.
    Covered,
    /// git does not ignore it.
    Missing,
    /// git could not answer.
    Unknown,
}

/// How a `git check-ignore` ended.
#[derive(Debug, Clone, Copy, PartialEq, Eq)]
pub enum GitExit {
    Code(i32),
    Signal,
    NotRun,
}

/// Read the three outcomes of `git check-ignore` apart: ignored, not ignored, no answer. A path
/// outside the work tree is not asked about.
pub fn ignore_state(in_worktree: bool, inside: bool, exit: GitExit) -> (r: IgnoreState)
    ensures
        !in_worktree ==> r == IgnoreState::NotInRepo,
        in_worktree && !inside ==> r == IgnoreState::Covered,
        in_worktree && inside ==> r == (match exit {
            GitExit::Code(c) => if c == 0 {
                IgnoreState::Covered
            } else if c == 1 {
                IgnoreState::Missing
            } else {
                IgnoreState::Unknown
            },
            _ => IgnoreState::Unknown,
        }),
{
    if !in_worktree {
        return IgnoreState::NotInRepo;
    }
    if !inside {
        return IgnoreState::Covered;
    }
    match exit {
        GitExit::Code(c) => {
            if c == 0 {
                IgnoreState::Covered
            } else if c == 1 {
                IgnoreState::Missing
            } else {
                IgnoreState::Unknown
            }
        },
        _ => IgnoreState::Unknown,
    }
}

/// What is said where git gave no answer about a path in a work tree. `why` says why it could not
/// be run.
pub open spec fn git_fault_text(exit: GitExit, worktree: Seq<char>, why: Seq<char>) -> Option<
    Seq<char>,
> {
    let exited = |code: Seq<char>|
        "`git check-ignore` in "@ + worktree + " exited with code "@ + code
            + " - cannot verify that the mirror is hidden from git.\nIf the repository belongs to another user:\n  git config --global --add safe.directory "@
            + worktree + "\nOtherwise repair the repository, or put the mirror outside it."@;
    match exit {
        GitExit::Code(c) => if c == 0 || c == 1 {
            None
        } else {
            Some(exited(signed_of(c as int)))
        },
        GitExit::Signal => Some(exited("a signal"@)),
        GitExit::NotRun => Some(
            "a git work tree was detected at "@ + worktree + ", but `git` could not be run ("@ + why
                + ") - cannot verify the mirror is git-ignored; install git or mount outside the repository"@,
        ),
    }
}

/// What is said where git gave no answer about a path in a work tree.
pub fn git_fault(exit: GitExit, worktree: &str, why: &str) -> (r: Option<String>)
    ensures
        opt_str(r) == git_fault_text(exit, worktree@, why@),
{
    let code: String = match exit {
        GitExit::NotRun => {
            return Some(
                cat5(
                    "a git work tree was detected at ",
                    worktree,
                    ", but `git` could not be run (",
                    why,
                    ") - cannot verify the mirror is git-ignored; install git or mount outside the repository",
                ),
            );
        },
        GitExit::Signal => "a signal".to_owned(),
        GitExit::Code(c) => {
            if c == 0 || c == 1 {
                return None;
            }
            signed(c as i64)
        },
    };
    let head = cat5(
        "`git check-ignore` in ",
        worktree,
        " exited with code ",
        code.as_str(),
        " - cannot verify that the mirror is hidden from git.\nIf the repository belongs to another user:\n  git config --global --add safe.directory ",
    );
    Some(
        cat3(
            head.as_str(),
            worktree,
            "\nOtherwise repair the repository, or put the mirror outside it.",
        ),
    )
}

/// The lines that make git ignore a mount. One inside the project's own control directory needs
/// no line beside that directory's.
pub fn ignore_lines(inside_control: bool, rel: &str) -> (r: String)
    ensures
        r@ == if inside_control {
            "  .docli/"@
        } else {
            "  "@ + rel@ + "/\n  .docli/"@
        },
{
    if inside_control {
        "  .docli/".to_owned()
    } else {
        cat3("  ", rel, "/\n  .docli/")
    }
}

/// What was found out about the directory of a mount.
#[derive(Debug)]
pub struct MountPlace {
    /// Its physical path, in the spelling of [`geometry_key`].
    pub key: Vec<String>,
    /// It or one of its ancestors holds an Obsidian vault.
    pub in_vault: bool,
    pub ignore: IgnoreState,
}

/// What was found out about the project itself, paths in the spelling of [`geometry_key`].
#[derive(Debug)]
pub struct ProjectPlace {
    pub root: Vec<String>,
    pub control: Vec<String>,
    pub control_state: Vec<String>,
    pub control_markers: Vec<String>,
    pub control_ignore: IgnoreState,
}

/// The keys of the mounts.
pub open spec fn keys_of(v: Seq<MountPlace>) -> Seq<Seq<Seq<char>>> {
    Seq::new(v.len(), |i: int| strs(v[i].key@))
}

pub open spec fn overlap_fault(keys: Seq<Seq<Seq<char>>>, i: int, j: int) -> Option<ConfigError> {
    if i < j && (holds(keys[i], keys[j]) || holds(keys[j], keys[i])) {
        Some(ConfigError::Overlap { mount: i as usize, other: j as usize })
    } else {
        None
    }
}

/// The control directories, in the order they are looked at, that the mount holds.
pub open spec fn control_held(key: Seq<Seq<char>>, p: ProjectPlace, i: int) -> Option<ConfigError> {
    if holds(key, strs(p.control@)) {
        Some(ConfigError::ContainsControl { mount: i as usize, reserved: Reserved::Root })
    } else if holds(key, strs(p.control_state@)) {
        Some(ConfigError::ContainsControl { mount: i as usize, reserved: Reserved::State })
    } else if holds(key, strs(p.control_markers@)) {
        Some(ConfigError::ContainsControl { mount: i as usize, reserved: Reserved::Markers })
    } else {
        None
    }
}

pub open spec fn ignore_fault(s: IgnoreState, i: int) -> Option<ConfigError> {
    match s {
        IgnoreState::Unknown => Some(ConfigError::GitUnknown { mount: i as usize }),
        IgnoreState::Missing => Some(ConfigError::NotIgnored { mount: i as usize }),
        _ => None,
    }
}

/// The first rule that the directory of one mount breaks.
pub open spec fn place_fault(
    places: Seq<MountPlace>,
    p: ProjectPlace,
    require_ignored: bool,
    i: int,
) -> Option<ConfigError> {
    let keys = keys_of(places);
    or_else(
        first_fault(places.len(), |j: int| overlap_fault(keys, i, j)),
        or_else(
            if holds(keys[i], strs(p.root@)) {
                Some(ConfigError::ContainsProject { mount: i as usize })
            } else {
                None
            },
            or_else(
                control_held(keys[i], p, i),
                or_else(
                    if places[i].in_vault {
                        Some(ConfigError::InVault { mount: i as usize })
                    } else {
                        None
                    },
                    if require_ignored {
                        ignore_fault(places[i].ignore, i)
                    } else {
                        None
                    },
                ),
            ),
        ),
    )
}

/// The rule on the control plane, which counts only where it lies inside the project.
pub open spec fn control_ignore_fault(p: ProjectPlace) -> Option<ConfigError> {
    if holds(strs(p.root@), strs(p.control@)) {
        match p.control_ignore {
            IgnoreState::Unknown => Some(ConfigError::ControlGitUnknown),
            IgnoreState::Missing => Some(ConfigError::ControlNotIgnored),
            _ => None,
        }
    } else {
        None
    }
}

/// The first rule of the geometry that is broken: mounts are disjoint, none holds the project or
/// the control plane or sits in a vault, and, where that is asked for, everything inside a work
/// tree is ignored by git.
pub open spec fn geometry_fault(
    ms: Seq<MountVal>,
    places: Seq<MountPlace>,
    p: ProjectPlace,
    require_ignored: bool,
) -> Option<ConfigError> {
    or_else(
        table_fault(ms),
        or_else(
            first_fault(places.len(), |i: int| place_fault(places, p, require_ignored, i)),
            if require_ignored {
                control_ignore_fault(p)
            } else {
                None
            },
        ),
    )
}

fn overlaps(places: &Vec<MountPlace>, i: usize) -> (r: Option<ConfigError>)
    requires
        i < places@.len(),
    ensures
        r == first_fault(
            places@.len(),
            |j: int| overlap_fault(keys_of(places@), i as int, j),
        ),
{
    let ghost keys = keys_of(places@);
    let ghost at = |j: int| overlap_fault(keys, i as int, j);
    for j in 0..places.len()
        invariant
            i < places@.len(),
            keys == keys_of(places@),
            at == (|j: int| overlap_fault(keys, i as int, j)),
            first_fault(j as nat, at) is None,
    {
        assert(first_fault((j + 1) as nat, at) == overlap_fault(keys, i as int, j as int));
        assert(keys[i as int] == strs(places@[i as int].key@));
        assert(keys[j as int] == strs(places@[j as int].key@));
        if i < j && (is_ancestor_or_self(&places[i].key, &places[j].key) || is_ancestor_or_self(
            &places[j].key,
            &places[i].key,
        )) {
            proof {
                lemma_first_fault((j + 1) as nat, places@.len(), at);
            }
            return Some(ConfigError::Overlap { mount: i, other: j });
        }
    }
    None
}

fn place_broken(places: &Vec<MountPlace>, p: &ProjectPlace, require_ignored: bool, i: usize) -> (r:
    Option<ConfigError>)
    requires
        i < places@.len(),
    ensures
        r == place_fault(places@, *p, require_ignored, i as int),
{
    let ghost keys = keys_of(places@);
    assert(keys[i as int] == strs(places@[i as int].key@));
    if let Some(e) = overlaps(places, i) {
        return Some(e);
    }
    let key = &places[i].key;
    if is_ancestor_or_self(key, &p.root) {
        return Some(ConfigError::ContainsProject { mount: i });
    }
    if is_ancestor_or_self(key, &p.control) {
        return Some(ConfigError::ContainsControl { mount: i, reserved: Reserved::Root });
    }
    if is_ancestor_or_self(key, &p.control_state) {
        return Some(ConfigError::ContainsControl { mount: i, reserved: Reserved::State });
    }
    if is_ancestor_or_self(key, &p.control_markers) {
        return Some(ConfigError::ContainsControl { mount: i, reserved: Reserved::Markers });
    }
    if places[i].in_vault {
        return Some(ConfigError::InVault { mount: i });
    }
    if require_ignored {
        match places[i].ignore {
            IgnoreState::Unknown => {
                return Some(ConfigError::GitUnknown { mount: i });
            },
            IgnoreState::Missing => {
                return Some(ConfigError::NotIgnored { mount: i });
            },
            _ => {},
        }
    }
    None
}

pub fn validate_geometry_inner(
    config: &DocliToml,
    places: &Vec<MountPlace>,
    p: &ProjectPlace,
    require_ignored: bool,
) -> (r: Result<(), ConfigError>)
    requires
        places@.len() == config.mounts@.len(),
    ensures
        fault_of(r) == geometry_fault(
            mounts_of(config.mounts@),
            places@,
            *p,
            require_ignored,
        ),
{
    if let Err(e) = validate_config(config) {
        return Err(e);
    }
    let ghost at = |i: int| place_fault(places@, *p, require_ignored, i);
    for i in 0..places.len()
        invariant
            table_fault(mounts_of(config.mounts@)) is None,
            at == (|i: int| place_fault(places@, *p, require_ignored, i)),
            first_fault(i as nat, at) is None,
    {
        assert(first_fault((i + 1) as nat, at) == place_fault(
            places@,
            *p,
            require_ignored,
            i as int,
        ));
        if let Some(e) = place_broken(places, p, require_ignored, i) {
            proof {
                lemma_first_fault((i + 1) as nat, places@.len(), at);
            }
            return Err(e);
        }
    }
    if require_ignored && is_ancestor_or_self(&p.root, &p.control) {
        match p.control_ignore {
            IgnoreState::Unknown => {
                return Err(ConfigError::ControlGitUnknown);
            },
            IgnoreState::Missing => {
                return Err(ConfigError::ControlNotIgnored);
            },
            _ => {},
        }
    }
    Ok(())
}

/// All rules, the one on git among them. `places` holds what was found out about each mount of
/// the table, in its order.
pub fn validate_geometry(config: &DocliToml, places: &Vec<MountPlace>, p: &ProjectPlace) -> (r:
    Result<(), ConfigError>)
    requires
        places@.len() == config.mounts@.len(),
    ensures
        fault_of(r) == geometry_fault(mounts_of(config.mounts@), places@, *p, true),
{
    validate_geometry_inner(config, places, p, true)
}

/// The rules without the one on git, for a table whose ignore lines are still to be written.
pub fn validate_geometry_paths_only(
    config: &DocliToml,
    places: &Vec<MountPlace>,
    p: &ProjectPlace,
) -> (r: Result<(), ConfigError>)
    requires
        places@.len() == config.mounts@.len(),
    ensures
        fault_of(r) == geometry_fault(mounts_of(config.mounts@), places@, *p, false),
{
    validate_geometry_inner(config, places, p, false)
}

proof fn lemma_no_fault(n: nat, at: spec_fn(int) -> Option<ConfigError>, i: int)
    requires
        first_fault(n, at) is None,
        0 <= i < n,
    ensures
        at(i) is None,
    decreases n,
{
    if i < n - 1 {
        lemma_no_fault((n - 1) as nat, at, i);
    }
}

/// Mounts that pass are disjoint: neither of two holds the other.
pub proof fn valid_mounts_are_disjoint(
    ms: Seq<MountVal>,
    places: Seq<MountPlace>,
    p: ProjectPlace,
    require_ignored: bool,
    i: int,
    j: int,
)
    requires
        geometry_fault(ms, places, p, require_ignored) is None,
        0 <= i < places.len(),
        0 <= j < places.len(),
        i != j,
    ensures
        !holds(keys_of(places)[i], keys_of(places)[j]),
        !holds(keys_of(places)[j], keys_of(places)[i]),
{
    let (a, b) = if i < j {
        (i, j)
    } else {
        (j, i)
    };
    lemma_no_fault(places.len(), |i: int| place_fault(places, p, require_ignored, i), a);
    let keys = keys_of(places);
    lemma_no_fault(places.len(), |j: int| overlap_fault(keys, a, j), b);
}

/// A mount that passes holds neither the project nor any directory of the control plane, and is
/// in no vault.
pub proof fn valid_mounts_spare_the_control_plane(
    ms: Seq<MountVal>,
    places: Seq<MountPlace>,
    p: ProjectPlace,
    require_ignored: bool,
    i: int,
)
    requires
        geometry_fault(ms, places, p, require_ignored) is None,
        0 <= i < places.len(),
    ensures
        !holds(strs(places[i].key@), strs(p.root@)),
        !holds(strs(places[i].key@), strs(p.control@)),
        !holds(strs(places[i].key@), strs(p.control_state@)),
        !holds(strs(places[i].key@), strs(p.control_markers@)),
        !places[i].in_vault,
{
    lemma_no_fault(places.len(), |i: int| place_fault(places, p, require_ignored, i), i);
    assert(keys_of(places)[i] == strs(places[i].key@));
}

proof fn lemma_faultless(n: nat, at: spec_fn(int) -> Option<ConfigError>)
    requires
        forall|i: int| 0 <= i < n ==> #[trigger] at(i) is None,
    ensures
        first_fault(n, at) is None,
    decreases n,
{
    if n > 0 {
        lemma_faultless((n - 1) as nat, at);
    }
}

/// The rule on git asks exactly this of a table that passes the others: every mount, and the
/// control plane where it lies in the project, is outside every work tree or ignored there. Where
/// no work tree governs a path, nothing is asked of it.
pub proof fn only_what_git_could_publish_must_be_ignored(
    ms: Seq<MountVal>,
    places: Seq<MountPlace>,
    p: ProjectPlace,
)
    ensures
        geometry_fault(ms, places, p, true) is None <==> {
            &&& geometry_fault(ms, places, p, false) is None
            &&& forall|i: int|
                0 <= i < places.len() ==> (#[trigger] places[i]).ignore is NotInRepo
                    || places[i].ignore is Covered
            &&& holds(strs(p.root@), strs(p.control@)) ==> p.control_ignore is NotInRepo
                || p.control_ignore is Covered
        },
{
    let strict = |i: int| place_fault(places, p, true, i);
    let loose = |i: int| place_fault(places, p, false, i);
    let n = places.len();
    if geometry_fault(ms, places, p, true) is None {
        assert forall|i: int| 0 <= i < n implies #[trigger] loose(i) is None && ignore_fault(
            places[i].ignore,
            i,
        ) is None by {
            lemma_no_fault(n, strict, i);
            assert(strict(i) is None);
        }
        lemma_faultless(n, loose);
        assert forall|i: int| 0 <= i < n implies (#[trigger] places[i]).ignore is NotInRepo
            || places[i].ignore is Covered by {
            assert(loose(i) is None);
        }
    }
    if geometry_fault(ms, places, p, false) is None && (forall|i: int|
        0 <= i < n ==> (#[trigger] places[i]).ignore is NotInRepo || places[i].ignore is Covered) {
        assert forall|i: int| 0 <= i < n implies #[trigger] strict(i) is None by {
            lemma_no_fault(n, loose, i);
            assert(loose(i) is None);
            assert(places[i].ignore is NotInRepo || places[i].ignore is Covered);
        }
        lemma_faultless(n, strict);
    }
}

/// In a table that passes, each workspace is mounted once.
pub proof fn valid_tables_mount_a_workspace_once(ms: Seq<MountVal>, i: int, j: int)
    requires
        table_fault(ms) is None,
        0 <= i < j < ms.len(),
    ensures
        ms[i].workspace != ms[j].workspace,
{
    lemma_no_fault(ms.len(), |i: int| scope_fault(ms, i), j);
}

/// In a table that passes, a workspace id selects its own mount: the display name of another
/// mount is never that id.
pub proof fn valid_tables_keep_ids_for_their_own_mount(ms: Seq<MountVal>, i: int, j: int)
    requires
        table_fault(ms) is None,
        0 <= i < ms.len(),
        0 <= j < ms.len(),
        ms[i].workspace != ms[j].workspace,
    ensures
        parsed_id(trim_of(shown_name(ms[i]))) != Some(ms[j].workspace),
{
    lemma_no_fault(ms.len(), |i: int| label_fault(ms, i), i);
    assert(0 <= j < ms.len());
}

/// A directory that was filled in stays as it is when the table is resolved again.
pub proof fn resolving_twice_changes_nothing(m: MountVal, cache: Seq<char>, other: Seq<char>)
    ensures
        resolved(resolved(m, cache), other) == resolved(m, cache),
{
    lemma_resolved_is_not_blank(m, cache);
}

proof fn lemma_resolved_is_not_blank(m: MountVal, cache: Seq<char>)
    ensures
        trim_of(resolved(m, cache).dir).len() > 0,
{
    if trim_of(m.dir).len() == 0 {
        let dir = cache + id_text(m.workspace);
        crate::ids::lemma_id_text(m.workspace);
        assert(dir.last() == id_text(m.workspace).last());
        crate::text::lemma_trim_keeps_ink(dir);
    }
}

/// What a refusal shows of one mount besides what the table says.
#[derive(Debug)]
pub struct ShownMount {
    /// The display name as it is safe to print.
    pub clean_name: String,
    /// The physical path of the directory.
    pub path: String,
    /// The vault that the directory sits in.
    pub vault: String,
    /// What kept git from answering.
    pub git_fault: String,
    /// The work tree that the directory is in.
    pub worktree: String,
    /// The lines that would make git ignore it.
    pub lines: String,
}

/// What a refusal shows besides what the table says.
#[derive(Debug)]
pub struct Shown {
    pub mounts: Vec<ShownMount>,
    /// What kept git from answering about the control plane.
    pub control_git_fault: String,
    /// The work tree that the control plane is in.
    pub control_worktree: String,
}

pub open spec fn field_name(f: Field) -> Seq<char> {
    match f {
        Field::Server => "server"@,
        Field::Dir => "dir"@,
        Field::Name => "name"@,
        Field::Folder => "folder"@,
    }
}

pub open spec fn reserved_name(r: Reserved) -> Seq<char> {
    match r {
        Reserved::Root => ""@,
        Reserved::State => "state"@,
        Reserved::Markers => "markers"@,
    }
}

/// The mount that a refusal names.
pub open spec fn faulty_mount(e: ConfigError) -> Option<usize> {
    match e {
        ConfigError::MountControl { mount } => Some(mount),
        ConfigError::BlankName { mount } => Some(mount),
        ConfigError::IdCollision { mount } => Some(mount),
        ConfigError::MountedTwice { mount } => Some(mount),
        ConfigError::BadFolder { mount } => Some(mount),
        ConfigError::Overlap { mount, .. } => Some(mount),
        ConfigError::ContainsProject { mount } => Some(mount),
        ConfigError::ContainsControl { mount, .. } => Some(mount),
        ConfigError::InVault { mount } => Some(mount),
        ConfigError::GitUnknown { mount } => Some(mount),
        ConfigError::NotIgnored { mount } => Some(mount),
        _ => None,
    }
}

/// The other mount that a refusal names.
pub open spec fn other_mount(e: ConfigError) -> Option<usize> {
    match e {
        ConfigError::Overlap { other, .. } => Some(other),
        _ => None,
    }
}

/// Every mount that the refusal names is in the table, and something is shown of it.
pub open spec fn names_mounts(e: ConfigError, config: DocliToml, shown: Shown) -> bool {
    &&& faulty_mount(e) matches Some(m) ==> m < config.mounts@.len() && m < shown.mounts@.len()
    &&& other_mount(e) matches Some(m) ==> m < config.mounts@.len() && m < shown.mounts@.len()
}

/// What is said of a refusal.
pub open spec fn config_message(e: ConfigError, config: DocliToml, shown: Shown) -> Seq<char> {
    let at = match faulty_mount(e) {
        Some(m) => m as int,
        None => 0,
    };
    let name = shown_name(config.mounts@[at].view());
    let seen = shown.mounts@[at];
    match e {
        ConfigError::ControlCharacter { field } => "docli.toml: `"@ + field_name(field)
            + "` contains a control character - remove it (it would be interpreted by whatever terminal renders it)"@,
        ConfigError::NoMounts =>
            "docli.toml has no [[mount]] entries - add one with `docli init`"@,
        ConfigError::MountControl { .. } => "mount `"@ + seen.clean_name@
            + "`: the path or name contains a control character - remove it"@,
        ConfigError::BlankName { .. } =>
            "a mount has a blank display name - give it a non-blank `name` in docli.toml, or omit `name` and give it a non-blank `dir`"@,
        ConfigError::IdCollision { .. } => if config.mounts@[at].name is Some {
            "mount `"@ + seen.clean_name@
                + "` uses another mount's workspace id - that one string would select two different mounts; give it a name of its own"@
        } else {
            "mount `"@ + seen.clean_name@
                + "` sits in a directory named after another mount's workspace id - that one string would select two different mounts; give it a `name` in docli.toml, or rename the directory"@
        },
        ConfigError::MountedTwice { .. } => "workspace "@ + id_text(config.mounts@[at].workspace)
            + " is mounted more than once - each workspace may have only one mount"@,
        ConfigError::BadFolder { .. } => "mount `"@ + name
            + "`: the folder scope is a relative server folder path such as `docs/api` - nonempty segments of at most 255 bytes, with no `.`, `..`, backslashes, control characters, surrounding whitespace, or leading or trailing slashes"@,
        ConfigError::Overlap { other, .. } => "mounts `"@ + name + "` and `"@ + shown_name(
            config.mounts@[other as int].view(),
        ) + "` overlap ("@ + seen.path@ + " vs "@ + shown.mounts@[other as int].path@
            + ") - mounts must be disjoint"@,
        ConfigError::ContainsProject { .. } => "mount `"@ + name
            + "` contains the project's docli.toml or .docli/ directory - choose a mount directory that contains neither"@,
        ConfigError::ContainsControl { reserved, .. } => "mount `"@ + name + "` contains .docli/"@
            + reserved_name(reserved)
            + " - a mount may live inside .docli/ (that is the default) but must not contain the control plane's own directories"@,
        ConfigError::InVault { .. } => "mount `"@ + name + "` sits inside an Obsidian vault ("@
            + seen.vault@
            + ") - the plugin would push the whole mirror back as new notes; mount outside the vault"@,
        ConfigError::GitUnknown { .. } => seen.git_fault@,
        ConfigError::NotIgnored { .. } => "mount `"@ + name + "` ("@ + seen.path@
            + ") is inside the git work tree at "@ + seen.worktree@
            + " but is not git-ignored - `git add -A` would stage mirrored note contents, which could then be committed and pushed to a remote.\nAdd to .gitignore:\n"@
            + seen.lines@ + "\nOr let docli append them: docli init --gitignore"@,
        ConfigError::ControlGitUnknown => shown.control_git_fault@,
        ConfigError::ControlNotIgnored => ".docli/ is inside the git work tree at "@
            + shown.control_worktree@
            + " but is NOT git-ignored - it holds the full note-path tree of every mounted workspace.\nAdd to .gitignore:\n  .docli/\nOr let docli append it: docli init --gitignore"@,
        ConfigError::NoHome => "cannot determine the home directory (set DOCLI_HOME)"@,
    }
}

impl ConfigError {
    /// What is said of this refusal of a table.
    pub fn message(&self, config: &DocliToml, shown: &Shown) -> (r: String)
        requires
            names_mounts(*self, *config, *shown),
        ensures
            r@ == config_message(*self, *config, *shown),
    {
        match *self {
            ConfigError::ControlCharacter { field } => {
                let name: &str = match field {
                    Field::Server => "server",
                    Field::Dir => "dir",
                    Field::Name => "name",
                    Field::Folder => "folder",
                };
                cat3(
                    "docli.toml: `",
                    name,
                    "` contains a control character - remove it (it would be interpreted by whatever terminal renders it)",
                )
            },
            ConfigError::NoMounts =>
                "docli.toml has no [[mount]] entries - add one with `docli init`".to_owned(),
            ConfigError::MountControl { mount } => cat3(
                "mount `",
                shown.mounts[mount].clean_name.as_str(),
                "`: the path or name contains a control character - remove it",
            ),
            ConfigError::BlankName { .. } =>
                "a mount has a blank display name - give it a non-blank `name` in docli.toml, or omit `name` and give it a non-blank `dir`".to_owned(),
            ConfigError::IdCollision { mount } => if config.mounts[mount].name.is_some() {
                cat3(
                    "mount `",
                    shown.mounts[mount].clean_name.as_str(),
                    "` uses another mount's workspace id - that one string would select two different mounts; give it a name of its own",
                )
            } else {
                cat3(
                    "mount `",
                    shown.mounts[mount].clean_name.as_str(),
                    "` sits in a directory named after another mount's workspace id - that one string would select two different mounts; give it a `name` in docli.toml, or rename the directory",
                )
            },
            ConfigError::MountedTwice { mount } => {
                let id = print_id(config.mounts[mount].workspace);
                cat3(
                    "workspace ",
                    id.as_str(),
                    " is mounted more than once - each workspace may have only one mount",
                )
            },
            ConfigError::BadFolder { mount } => cat3(
                "mount `",
                config.mounts[mount].display_name(),
                "`: the folder scope is a relative server folder path such as `docs/api` - nonempty segments of at most 255 bytes, with no `.`, `..`, backslashes, control characters, surrounding whitespace, or leading or trailing slashes",
            ),
            ConfigError::Overlap { mount, other } => {
                let head = cat4(
                    "mounts `",
                    config.mounts[mount].display_name(),
                    "` and `",
                    config.mounts[other].display_name(),
                );
                let tail = cat4(
                    head.as_str(),
                    "` overlap (",
                    shown.mounts[mount].path.as_str(),
                    " vs ",
                );
                cat3(
                    tail.as_str(),
                    shown.mounts[other].path.as_str(),
                    ") - mounts must be disjoint",
                )
            },
            ConfigError::ContainsProject { mount } => cat3(
                "mount `",
                config.mounts[mount].display_name(),
                "` contains the project's docli.toml or .docli/ directory - choose a mount directory that contains neither",
            ),
            ConfigError::ContainsControl { mount, reserved } => {
                let what: &str = match reserved {
                    Reserved::Root => "",
                    Reserved::State => "state",
                    Reserved::Markers => "markers",
                };
                cat5(
                    "mount `",
                    config.mounts[mount].display_name(),
                    "` contains .docli/",
                    what,
                    " - a mount may live inside .docli/ (that is the default) but must not contain the control plane's own directories",
                )
            },
            ConfigError::InVault { mount } => cat5(
                "mount `",
                config.mounts[mount].display_name(),
                "` sits inside an Obsidian vault (",
                shown.mounts[mount].vault.as_str(),
                ") - the plugin would push the whole mirror back as new notes; mount outside the vault",
            ),
            ConfigError::GitUnknown { mount } => shown.mounts[mount].git_fault.clone(),
            ConfigError::NotIgnored { mount } => {
                let head = cat5(
                    "mount `",
                    config.mounts[mount].display_name(),
                    "` (",
                    shown.mounts[mount].path.as_str(),
                    ") is inside the git work tree at ",
                );
                cat5(
                    head.as_str(),
                    shown.mounts[mount].worktree.as_str(),
                    " but is not git-ignored - `git add -A` would stage mirrored note contents, which could then be committed and pushed to a remote.\nAdd to .gitignore:\n",
                    shown.mounts[mount].lines.as_str(),
                    "\nOr let docli append them: docli init --gitignore",
                )
            },
            ConfigError::ControlGitUnknown => shown.control_git_fault.clone(),
            ConfigError::ControlNotIgnored => cat3(
                ".docli/ is inside the git work tree at ",
                shown.control_worktree.as_str(),
                " but is NOT git-ignored - it holds the full note-path tree of every mounted workspace.\nAdd to .gitignore:\n  .docli/\nOr let docli append it: docli init --gitignore",
            ),
            ConfigError::NoHome =>
                "cannot determine the home directory (set DOCLI_HOME)".to_owned(),
        }
    }
}

/// A folder scope names a folder as the server would: segments with no slash around them, none blank
/// at its ends, none `.` or `..`, none with a backslash or a control character, none over 255 bytes.
pub open spec fn names_a_folder(f: Seq<char>) -> bool {
    forall|i: int|
        0 <= i < split_of(f, '/').len() ==> {
            let seg = #[trigger] split_of(f, '/')[i];
            &&& seg.len() > 0 && seg != "."@ && seg != ".."@
            &&& !seg.contains('\\')
            &&& forall|j: int| 0 <= j < seg.len() ==> !crate::text::is_cc(#[trigger] seg[j])
            &&& trim_of(seg) == seg
            &&& utf8_len(seg) <= 255
        }
}

/// A table that any command accepts: it has mounts; no path and no name of them holds a control
/// character; each has a display name with ink, and none that is the workspace id of another mount;
/// no workspace is mounted twice; each folder scope names a folder; no mount lies in another, holds
/// the project or a directory of the control plane, or lies in a vault.
pub open spec fn is_acceptable(ms: Seq<MountVal>, places: Seq<MountPlace>, p: ProjectPlace) -> bool {
    &&& ms.len() > 0
    &&& forall|i: int, j: int|
        #![trigger ms[i].dir[j]]
        0 <= i < ms.len() && 0 <= j < ms[i].dir.len() ==> !crate::text::is_cc(ms[i].dir[j])
    &&& forall|i: int, j: int|
        #![trigger ms[i].name->0[j]]
        0 <= i < ms.len() && ms[i].name is Some && 0 <= j < ms[i].name->0.len()
            ==> !crate::text::is_cc(ms[i].name->0[j])
    &&& forall|i: int|
        0 <= i < ms.len() ==> trim_of(
            match (#[trigger] ms[i]).name {
                Some(n) => n,
                None => ms[i].dir,
            },
        ).len() > 0
    &&& forall|i: int, j: int|
        0 <= i < ms.len() && 0 <= j < ms.len() && (#[trigger] ms[i]).workspace != (
        #[trigger] ms[j]).workspace ==> parsed_id(
            trim_of(
                match ms[i].name {
                    Some(n) => n,
                    None => ms[i].dir,
                },
            ),
        ) != Some(ms[j].workspace)
    &&& forall|i: int, j: int|
        0 <= i < j < ms.len() ==> (#[trigger] ms[i]).workspace != (#[trigger] ms[j]).workspace
    &&& forall|i: int|
        0 <= i < ms.len() && (#[trigger] ms[i]).folder is Some ==> names_a_folder(ms[i].folder->0)
    &&& forall|i: int, j: int|
        0 <= i < places.len() && 0 <= j < places.len() && i != j ==> !strs(
            (#[trigger] places[i]).key@,
        ).is_prefix_of(strs((#[trigger] places[j]).key@))
    &&& forall|i: int|
        0 <= i < places.len() ==> !strs((#[trigger] places[i]).key@).is_prefix_of(strs(p.root@))
            && !strs(places[i].key@).is_prefix_of(strs(p.control@)) && !strs(
            places[i].key@,
        ).is_prefix_of(strs(p.control_state@)) && !strs(places[i].key@).is_prefix_of(
            strs(p.control_markers@),
        ) && !places[i].in_vault
}

proof fn lemma_good_folder(f: Seq<char>)
    ensures
        good_folder(f) <==> names_a_folder(f),
{
    assert forall|i: int| 0 <= i < split_of(f, '/').len() implies (good_segment(
        #[trigger] split_of(f, '/')[i],
    ) <==> {
        let seg = split_of(f, '/')[i];
        &&& seg.len() > 0 && seg != "."@ && seg != ".."@
        &&& !seg.contains('\\')
        &&& forall|j: int| 0 <= j < seg.len() ==> !crate::text::is_cc(#[trigger] seg[j])
        &&& trim_of(seg) == seg
        &&& utf8_len(seg) <= 255
    }) by {}
}

proof fn lemma_holds_prefix(a: Seq<Seq<char>>, b: Seq<Seq<char>>)
    ensures
        holds(a, b) <==> a.is_prefix_of(b),
{
    if a.len() <= b.len() {
        assert(b.take(a.len() as int) =~= b.subrange(0, a.len() as int));
    }
}

proof fn lemma_table_rules(ms: Seq<MountVal>)
    ensures
        table_fault(ms) is None <==> {
            &&& ms.len() > 0
            &&& forall|i: int| 0 <= i < ms.len() ==> #[trigger] control_fault(ms, i) is None
            &&& forall|i: int| 0 <= i < ms.len() ==> #[trigger] label_fault(ms, i) is None
            &&& forall|i: int| 0 <= i < ms.len() ==> #[trigger] scope_fault(ms, i) is None
        },
{
    let a = |i: int| control_fault(ms, i);
    let b = |i: int| label_fault(ms, i);
    let c = |i: int| scope_fault(ms, i);
    let n = ms.len();
    if table_fault(ms) is None {
        assert forall|i: int| 0 <= i < n implies #[trigger] control_fault(ms, i) is None by {
            lemma_no_fault(n, a, i);
            assert(a(i) is None);
        }
        assert forall|i: int| 0 <= i < n implies #[trigger] label_fault(ms, i) is None by {
            lemma_no_fault(n, b, i);
            assert(b(i) is None);
        }
        assert forall|i: int| 0 <= i < n implies #[trigger] scope_fault(ms, i) is None by {
            lemma_no_fault(n, c, i);
            assert(c(i) is None);
        }
    }
    if n > 0 && (forall|i: int| 0 <= i < n ==> #[trigger] control_fault(ms, i) is None) && (forall|
        i: int,
    | 0 <= i < n ==> #[trigger] label_fault(ms, i) is None) && (forall|i: int|
        0 <= i < n ==> #[trigger] scope_fault(ms, i) is None) {
        assert forall|i: int| 0 <= i < n implies #[trigger] a(i) is None by {
            assert(control_fault(ms, i) is None);
        }
        assert forall|i: int| 0 <= i < n implies #[trigger] b(i) is None by {
            assert(label_fault(ms, i) is None);
        }
        assert forall|i: int| 0 <= i < n implies #[trigger] c(i) is None by {
            assert(scope_fault(ms, i) is None);
        }
        lemma_faultless(n, a);
        lemma_faultless(n, b);
        lemma_faultless(n, c);
    }
}

proof fn lemma_control_rule(ms: Seq<MountVal>)
    ensures
        (forall|i: int| 0 <= i < ms.len() ==> #[trigger] control_fault(ms, i) is None) <==> {
            &&& forall|i: int, j: int|
                #![trigger ms[i].dir[j]]
                0 <= i < ms.len() && 0 <= j < ms[i].dir.len() ==> !crate::text::is_cc(ms[i].dir[j])
            &&& forall|i: int, j: int|
                #![trigger ms[i].name->0[j]]
                0 <= i < ms.len() && ms[i].name is Some && 0 <= j < ms[i].name->0.len()
                    ==> !crate::text::is_cc(ms[i].name->0[j])
        },
{
    if forall|i: int| 0 <= i < ms.len() ==> #[trigger] control_fault(ms, i) is None {
        assert forall|i: int, j: int|
            #![trigger ms[i].dir[j]]
            0 <= i < ms.len() && 0 <= j < ms[i].dir.len() implies !crate::text::is_cc(
            ms[i].dir[j],
        ) by {
            assert(control_fault(ms, i) is None);
        }
        assert forall|i: int, j: int|
            #![trigger ms[i].name->0[j]]
            0 <= i < ms.len() && ms[i].name is Some && 0 <= j
                < ms[i].name->0.len() implies !crate::text::is_cc(ms[i].name->0[j]) by {
            assert(control_fault(ms, i) is None);
        }
    }
}

proof fn lemma_label_rule(ms: Seq<MountVal>)
    ensures
        (forall|i: int| 0 <= i < ms.len() ==> #[trigger] label_fault(ms, i) is None) <==> {
            &&& forall|i: int|
                0 <= i < ms.len() ==> trim_of(
                    match (#[trigger] ms[i]).name {
                        Some(n) => n,
                        None => ms[i].dir,
                    },
                ).len() > 0
            &&& forall|i: int, j: int|
                0 <= i < ms.len() && 0 <= j < ms.len() && (#[trigger] ms[i]).workspace != (
                #[trigger] ms[j]).workspace ==> parsed_id(
                    trim_of(
                        match ms[i].name {
                            Some(n) => n,
                            None => ms[i].dir,
                        },
                    ),
                ) != Some(ms[j].workspace)
        },
{
    if forall|i: int| 0 <= i < ms.len() ==> #[trigger] label_fault(ms, i) is None {
        assert forall|i: int| 0 <= i < ms.len() implies trim_of(
            match (#[trigger] ms[i]).name {
                Some(n) => n,
                None => ms[i].dir,
            },
        ).len() > 0 by {
            assert(label_fault(ms, i) is None);
        }
        assert forall|i: int, j: int|
            0 <= i < ms.len() && 0 <= j < ms.len() && (#[trigger] ms[i]).workspace != (
            #[trigger] ms[j]).workspace implies parsed_id(
            trim_of(
                match ms[i].name {
                    Some(n) => n,
                    None => ms[i].dir,
                },
            ),
        ) != Some(ms[j].workspace) by {
            assert(label_fault(ms, i) is None);
        }
    }
}

proof fn lemma_scope_rule(ms: Seq<MountVal>)
    ensures
        (forall|i: int| 0 <= i < ms.len() ==> #[trigger] scope_fault(ms, i) is None) <==> {
            &&& forall|i: int, j: int|
                0 <= i < j < ms.len() ==> (#[trigger] ms[i]).workspace != (
                #[trigger] ms[j]).workspace
            &&& forall|i: int|
                0 <= i < ms.len() && (#[trigger] ms[i]).folder is Some ==> names_a_folder(
                    ms[i].folder->0,
                )
        },
{
    assert forall|i: int| 0 <= i < ms.len() && (#[trigger] ms[i]).folder is Some implies (good_folder(
        ms[i].folder->0,
    ) <==> names_a_folder(ms[i].folder->0)) by {
        lemma_good_folder(ms[i].folder->0);
    }
    if forall|i: int| 0 <= i < ms.len() ==> #[trigger] scope_fault(ms, i) is None {
        assert forall|i: int, j: int| 0 <= i < j < ms.len() implies (#[trigger] ms[i]).workspace != (
        #[trigger] ms[j]).workspace by {
            assert(scope_fault(ms, j) is None);
        }
        assert forall|i: int| 0 <= i < ms.len() && (#[trigger] ms[i]).folder is Some implies
            names_a_folder(ms[i].folder->0) by {
            assert(scope_fault(ms, i) is None);
        }
    }
}

proof fn lemma_place_rules(places: Seq<MountPlace>, p: ProjectPlace)
    ensures
        first_fault(places.len(), |i: int| place_fault(places, p, false, i)) is None <==> {
            &&& forall|i: int, j: int|
                0 <= i < places.len() && 0 <= j < places.len() && i != j ==> !strs(
                    (#[trigger] places[i]).key@,
                ).is_prefix_of(strs((#[trigger] places[j]).key@))
            &&& forall|i: int|
                0 <= i < places.len() ==> !strs((#[trigger] places[i]).key@).is_prefix_of(
                    strs(p.root@),
                ) && !strs(places[i].key@).is_prefix_of(strs(p.control@)) && !strs(
                    places[i].key@,
                ).is_prefix_of(strs(p.control_state@)) && !strs(places[i].key@).is_prefix_of(
                    strs(p.control_markers@),
                ) && !places[i].in_vault
        },
{
    let at = |i: int| place_fault(places, p, false, i);
    let n = places.len();
    let keys = keys_of(places);
    assert forall|i: int| 0 <= i < n implies (holds(#[trigger] keys[i], strs(p.root@)) <==> strs(
        places[i].key@,
    ).is_prefix_of(strs(p.root@))) && (holds(keys[i], strs(p.control@)) <==> strs(
        places[i].key@,
    ).is_prefix_of(strs(p.control@))) && (holds(keys[i], strs(p.control_state@)) <==> strs(
        places[i].key@,
    ).is_prefix_of(strs(p.control_state@))) && (holds(keys[i], strs(p.control_markers@)) <==> strs(
        places[i].key@,
    ).is_prefix_of(strs(p.control_markers@))) by {
        lemma_holds_prefix(keys[i], strs(p.root@));
        lemma_holds_prefix(keys[i], strs(p.control@));
        lemma_holds_prefix(keys[i], strs(p.control_state@));
        lemma_holds_prefix(keys[i], strs(p.control_markers@));
    }
    assert forall|i: int, j: int| 0 <= i < n && 0 <= j < n implies (holds(
        #[trigger] keys[i],
        #[trigger] keys[j],
    ) <==> strs(places[i].key@).is_prefix_of(strs(places[j].key@))) by {
        lemma_holds_prefix(keys[i], keys[j]);
    }
    if first_fault(n, at) is None {
        assert forall|i: int| 0 <= i < n implies !strs((#[trigger] places[i]).key@).is_prefix_of(
            strs(p.root@),
        ) && !strs(places[i].key@).is_prefix_of(strs(p.control@)) && !strs(
            places[i].key@,
        ).is_prefix_of(strs(p.control_state@)) && !strs(places[i].key@).is_prefix_of(
            strs(p.control_markers@),
        ) && !places[i].in_vault by {
            lemma_no_fault(n, at, i);
            assert(at(i) is None);
            assert(keys[i] == strs(places[i].key@));
        }
        assert forall|i: int, j: int|
            0 <= i < n && 0 <= j < n && i != j implies !strs(
            (#[trigger] places[i]).key@,
        ).is_prefix_of(strs((#[trigger] places[j]).key@)) by {
            let a = if i < j {
                i
            } else {
                j
            };
            let b = if i < j {
                j
            } else {
                i
            };
            lemma_no_fault(n, at, a);
            assert(at(a) is None);
            let f = |j: int| overlap_fault(keys, a, j);
            lemma_no_fault(n, f, b);
            assert(f(b) is None);
            assert(keys[a] == strs(places[a].key@) && keys[b] == strs(places[b].key@));
        }
    }
    if (forall|i: int, j: int|
        0 <= i < n && 0 <= j < n && i != j ==> !strs((#[trigger] places[i]).key@).is_prefix_of(
            strs((#[trigger] places[j]).key@),
        )) && (forall|i: int|
        0 <= i < n ==> !strs((#[trigger] places[i]).key@).is_prefix_of(strs(p.root@)) && !strs(
            places[i].key@,
        ).is_prefix_of(strs(p.control@)) && !strs(places[i].key@).is_prefix_of(
            strs(p.control_state@),
        ) && !strs(places[i].key@).is_prefix_of(strs(p.control_markers@)) && !places[i].in_vault) {
        assert forall|i: int| 0 <= i < n implies #[trigger] at(i) is None by {
            assert(keys[i] == strs(places[i].key@));
            let f = |j: int| overlap_fault(keys, i, j);
            assert forall|j: int| 0 <= j < n implies #[trigger] f(j) is None by {
                if i < j {
                    assert(keys[j] == strs(places[j].key@));
                    assert(!strs(places[i].key@).is_prefix_of(strs(places[j].key@)));
                    assert(!strs(places[j].key@).is_prefix_of(strs(places[i].key@)));
                }
            }
            lemma_faultless(n, f);
        }
        lemma_faultless(n, at);
    }
}

/// A table is accepted exactly where every rule on it holds.
pub proof fn a_table_is_accepted_where_every_rule_holds(
    ms: Seq<MountVal>,
    places: Seq<MountPlace>,
    p: ProjectPlace,
)
    ensures
        geometry_fault(ms, places, p, false) is None <==> is_acceptable(ms, places, p),
{
    lemma_table_rules(ms);
    lemma_control_rule(ms);
    lemma_label_rule(ms);
    lemma_scope_rule(ms);
    lemma_place_rules(places, p);
}

proof fn lemma_fault_is_some(n: nat, at: spec_fn(int) -> Option<ConfigError>) -> (i: int)
    requires
        first_fault(n, at) is Some,
    ensures
        0 <= i < n,
        at(i) == first_fault(n, at),
    decreases n,
{
    if first_fault((n - 1) as nat, at) is Some {
        lemma_fault_is_some((n - 1) as nat, at)
    } else {
        n - 1
    }
}

/// A refusal is true of the table: whichever rule it says is broken is broken, by the mount that it
/// names.
pub proof fn a_refusal_is_true(
    ms: Seq<MountVal>,
    places: Seq<MountPlace>,
    p: ProjectPlace,
    require_ignored: bool,
)
    requires
        geometry_fault(ms, places, p, require_ignored) is Some,
        ms.len() <= usize::MAX,
        places.len() <= usize::MAX,
    ensures
        match geometry_fault(ms, places, p, require_ignored)->0 {
            ConfigError::NoMounts => ms.len() == 0,
            ConfigError::MountControl { mount } => mount < ms.len() && (has_control(
                ms[mount as int].dir,
            ) || ms[mount as int].name is Some && has_control(ms[mount as int].name->0)),
            ConfigError::BlankName { mount } => mount < ms.len() && trim_of(
                match ms[mount as int].name {
                    Some(n) => n,
                    None => ms[mount as int].dir,
                },
            ).len() == 0,
            ConfigError::IdCollision { mount } => mount < ms.len() && exists|o: int|
                0 <= o < ms.len() && (#[trigger] ms[o]).workspace != ms[mount as int].workspace
                    && parsed_id(
                    trim_of(
                        match ms[mount as int].name {
                            Some(n) => n,
                            None => ms[mount as int].dir,
                        },
                    ),
                ) == Some(ms[o].workspace),
            ConfigError::MountedTwice { mount } => mount < ms.len() && exists|o: int|
                0 <= o < mount && (#[trigger] ms[o]).workspace == ms[mount as int].workspace,
            ConfigError::BadFolder { mount } => mount < ms.len() && ms[mount as int].folder is Some
                && !names_a_folder(ms[mount as int].folder->0),
            ConfigError::Overlap { mount, other } => mount < other < places.len() && (strs(
                places[mount as int].key@,
            ).is_prefix_of(strs(places[other as int].key@)) || strs(
                places[other as int].key@,
            ).is_prefix_of(strs(places[mount as int].key@))),
            ConfigError::ContainsProject { mount } => mount < places.len() && strs(
                places[mount as int].key@,
            ).is_prefix_of(strs(p.root@)),
            ConfigError::ContainsControl { mount, reserved } => mount < places.len() && strs(
                places[mount as int].key@,
            ).is_prefix_of(
                strs(
                    match reserved {
                        Reserved::Root => p.control@,
                        Reserved::State => p.control_state@,
                        Reserved::Markers => p.control_markers@,
                    },
                ),
            ),
            ConfigError::InVault { mount } => mount < places.len()
                && places[mount as int].in_vault,
            ConfigError::GitUnknown { mount } => require_ignored && mount < places.len()
                && places[mount as int].ignore is Unknown,
            ConfigError::NotIgnored { mount } => require_ignored && mount < places.len()
                && places[mount as int].ignore is Missing,
            ConfigError::ControlGitUnknown => require_ignored && p.control_ignore is Unknown
                && strs(p.root@).is_prefix_of(strs(p.control@)),
            ConfigError::ControlNotIgnored => require_ignored && p.control_ignore is Missing
                && strs(p.root@).is_prefix_of(strs(p.control@)),
            _ => false,
        },
{
    let a = |i: int| control_fault(ms, i);
    let b = |i: int| label_fault(ms, i);
    let c = |i: int| scope_fault(ms, i);
    let f = |i: int| place_fault(places, p, require_ignored, i);
    let keys = keys_of(places);
    lemma_holds_prefix(strs(p.root@), strs(p.control@));
    if ms.len() == 0 {
    } else if first_fault(ms.len(), a) is Some {
        let i = lemma_fault_is_some(ms.len(), a);
    } else if first_fault(ms.len(), b) is Some {
        let i = lemma_fault_is_some(ms.len(), b);
    } else if first_fault(ms.len(), c) is Some {
        let i = lemma_fault_is_some(ms.len(), c);
        if ms[i].folder is Some {
            lemma_good_folder(ms[i].folder->0);
        }
    } else if first_fault(places.len(), f) is Some {
        let i = lemma_fault_is_some(places.len(), f);
        let g = |j: int| overlap_fault(keys, i, j);
        assert(keys[i] == strs(places[i].key@));
        if first_fault(places.len(), g) is Some {
            let j = lemma_fault_is_some(places.len(), g);
            assert(keys[j] == strs(places[j].key@));
            lemma_holds_prefix(keys[i], keys[j]);
            lemma_holds_prefix(keys[j], keys[i]);
        } else {
            lemma_holds_prefix(keys[i], strs(p.root@));
            lemma_holds_prefix(keys[i], strs(p.control@));
            lemma_holds_prefix(keys[i], strs(p.control_state@));
            lemma_holds_prefix(keys[i], strs(p.control_markers@));
        }
    }
}

/// A path of names comes through as it is; `.` says nothing, and `..` takes back the name before it.
pub proof fn a_path_is_normalized_step_by_step(
    p: Seq<ComponentVal>,
    name: Seq<char>,
    root: Seq<char>,
)
    ensures
        normalized(p.push(ComponentVal::CurDir)) == normalized(p),
        normalized(p.push(ComponentVal::Normal(name))) == normalized(p).push(
            ComponentVal::Normal(name),
        ),
        normalized(p.push(ComponentVal::Normal(name)).push(ComponentVal::ParentDir)) == normalized(
            p,
        ),
        normalized(seq![ComponentVal::Root(root), ComponentVal::ParentDir]) == seq![
            ComponentVal::Root(root),
        ],
{
    reveal_with_fuel(normalized, 3);
    assert(p.push(ComponentVal::CurDir).drop_last() =~= p);
    assert(p.push(ComponentVal::Normal(name)).drop_last() =~= p);
    let q = p.push(ComponentVal::Normal(name));
    assert(q.push(ComponentVal::ParentDir).drop_last() =~= q);
    assert(normalized(q).drop_last() =~= normalized(p));
    let s = seq![ComponentVal::Root(root)];
    assert(seq![ComponentVal::Root(root), ComponentVal::ParentDir].drop_last() =~= s);
    assert(s.drop_last() =~= Seq::<ComponentVal>::empty());
    assert(normalized(s) =~= s);
}

/// A normalized path holds only roots and names, and is its own normal form.
pub proof fn a_normalized_path_is_its_own_normal_form(p: Seq<ComponentVal>)
    ensures
        forall|i: int|
            0 <= i < normalized(p).len() ==> (#[trigger] normalized(p)[i]) is Root || normalized(
                p,
            )[i] is Normal,
        (forall|i: int| 0 <= i < p.len() ==> (#[trigger] p[i]) is Root || p[i] is Normal)
            ==> normalized(p) == p,
    decreases p.len(),
{
    if p.len() > 0 {
        a_normalized_path_is_its_own_normal_form(p.drop_last());
        if forall|i: int| 0 <= i < p.len() ==> (#[trigger] p[i]) is Root || p[i] is Normal {
            assert(p[p.len() - 1] == p.last());
            assert(normalized(p) =~= p);
        }
    }
}

/// The directory of a mount is taken from the project's root, unless it has a root of its own.
pub proof fn a_mount_lies_under_the_root_of_its_project(
    root: Seq<ComponentVal>,
    dir: Seq<ComponentVal>,
)
    requires
        forall|i: int| 0 <= i < root.len() ==> (#[trigger] root[i]) is Root || root[i] is Normal,
        forall|i: int| 0 <= i < dir.len() ==> (#[trigger] dir[i]) is Root || dir[i] is Normal,
    ensures
        dir.len() > 0 && dir[0] is Root ==> mount_path(root, dir) == dir,
        dir.len() == 0 || !(dir[0] is Root) ==> mount_path(root, dir) == root + dir,
{
    a_normalized_path_is_its_own_normal_form(dir);
    a_normalized_path_is_its_own_normal_form(root + dir);
    let all = root + dir;
    assert forall|i: int| 0 <= i < all.len() implies (#[trigger] all[i]) is Root || all[i]
        is Normal by {
        if i < root.len() {
            assert(all[i] == root[i]);
        } else {
            assert(all[i] == dir[i - root.len()]);
        }
    }
}

/// What lies below a root is what follows it, and nothing lies below a root that the path does not
/// begin with.
pub proof fn what_lies_below_follows_the_root(
    root: Seq<ComponentVal>,
    rest: Seq<ComponentVal>,
    path: Seq<ComponentVal>,
)
    ensures
        below(root, root + rest) == Some(
            crate::text::join_of(
                rest.map_values(
                    |c: ComponentVal|
                        match c {
                            ComponentVal::Root(s) => s,
                            ComponentVal::CurDir => "."@,
                            ComponentVal::ParentDir => ".."@,
                            ComponentVal::Normal(s) => s,
                        },
                ),
                "/"@,
            ),
        ),
        !root.is_prefix_of(path) ==> below(root, path) is None,
{
    let all = root + rest;
    assert(all.take(root.len() as int) =~= root);
    assert(all.skip(root.len() as int) =~= rest);
    let names = rest.map_values(
        |c: ComponentVal|
            match c {
                ComponentVal::Root(s) => s,
                ComponentVal::CurDir => "."@,
                ComponentVal::ParentDir => ".."@,
                ComponentVal::Normal(s) => s,
            },
    );
    assert(Seq::new(rest.len(), |i: int| component_text(rest[i])) =~= names);
    if root.len() <= path.len() && path.take(root.len() as int) == root {
        assert(path.subrange(0, root.len() as int) =~= root);
    }
}

/// A path that is partly there is what that part resolves to, with the rest behind it; one of which
/// nothing is there stays as it is.
pub proof fn the_missing_part_of_a_path_is_kept(
    there: Seq<Seq<char>>,
    rest: Seq<Seq<char>>,
    to: Seq<Seq<char>>,
)
    ensures
        physical(there + rest, Some(there.len() as int), Some(to)) == to + rest,
        physical(there + rest, Some(there.len() as int), None) == there + rest,
        physical(there + rest, None, Some(to)) == there + rest,
{
    let path = there + rest;
    assert(path.skip(there.len() as int) =~= rest);
    assert(path.take(there.len() as int) =~= there);
}

/// A mount that names a directory keeps it; one that leaves it out gets the cache of its workspace,
/// and nothing else of it changes.
pub proof fn only_a_blank_directory_is_filled_in(m: MountVal, cache: Seq<char>)
    ensures
        trim_of(m.dir).len() > 0 ==> resolved(m, cache) == m,
        trim_of(m.dir).len() == 0 ==> resolved(m, cache).dir == cache + id_text(m.workspace)
            && resolved(m, cache).derived_dir && resolved(m, cache).workspace == m.workspace
            && resolved(m, cache).folder == m.folder && resolved(m, cache).name == m.name,
{
}

/// A table that is read is refused exactly where a text of it that is shown holds a control
/// character: the server's address, or the directory, the name or the folder of some mount.
pub proof fn a_read_table_is_refused_for_its_control_characters(
    server: Seq<char>,
    mounts: Seq<MountVal>,
)
    ensures
        dirty_table(server, mounts) is Some <==> (exists|j: int|
            0 <= j < server.len() && crate::text::is_cc(#[trigger] server[j])) || exists|i: int|
            #![trigger mounts[i]]
            0 <= i < mounts.len() && (has_control(mounts[i].dir) || mounts[i].name is Some
                && has_control(mounts[i].name->0) || mounts[i].folder is Some && has_control(
                mounts[i].folder->0,
            )),
{
    let at = |i: int| dirty_field(mounts[i]);
    let n = mounts.len();
    if first_fault(n, at) is Some {
        let i = lemma_fault_is_some(n, at);
        assert(mounts[i] == mounts[i]);
    } else {
        assert forall|i: int| 0 <= i < n implies dirty_field(#[trigger] mounts[i]) is None by {
            lemma_no_fault(n, at, i);
            assert(at(i) is None);
        }
    }
}

/// The nearest directory is the first that answers yes, and there is none where none does.
pub proof fn the_nearest_directory_is_the_first_that_answers(answers: Seq<bool>, i: int)
    ensures
        0 <= i < answers.len() && answers[i] && (forall|j: int| 0 <= j < i ==> !answers[j])
            ==> nearest(answers) == Some(i),
        (forall|j: int| 0 <= j < answers.len() ==> !answers[j]) ==> nearest(answers) is None,
{
    if 0 <= i < answers.len() && answers[i] && (forall|j: int| 0 <= j < i ==> !answers[j]) {
        assert(answers.contains(true));
        assert(is_nearest(answers, i));
        let k = choose|k: int| is_nearest(answers, k);
        assert(is_nearest(answers, k));
        if k < i {
            assert(!answers[k]);
        } else if i < k {
            assert(!answers[i]);
        }
    }
}

/// Git answers with zero or one; any other exit is a fault.
pub proof fn git_answers_with_zero_or_one(exit: GitExit, worktree: Seq<char>, why: Seq<char>)
    ensures
        git_fault_text(exit, worktree, why) is None <==> (exit == GitExit::Code(0) || exit
            == GitExit::Code(1)),
{
}

} // verus!
