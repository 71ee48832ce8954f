//! The guard before an agent's tool call: which paths the call is about to write, whether one of
//! them lies in a mirror, and what the agent is answered.
//!
//! Everything that is uncertain allows. No project, a payload that cannot be read, a table that
//! no command would accept: in none of these is a mirror known, and a refusal would keep the
//! agent from writing anywhere.

use vstd::prelude::*;

use crate::config::components_of;
use crate::config::copy_path;
use crate::config::geometry_fault;
use crate::config::holds;
use crate::config::is_ancestor_or_self;
use crate::config::keys_of;
use crate::config::mounts_of;
use crate::config::needs_cache;
use crate::config::validate_geometry_paths_only;
use crate::config::Component;
use crate::config::ComponentVal;
use crate::config::DocliToml;
use crate::config::MountPlace;
use crate::config::ProjectPlace;
use crate::hooks::HookAgent;
use crate::json::as_array;
use crate::json::as_text;
use crate::json::elements_of;
use crate::json::lemma_elements_view;
use crate::json::lemma_members_view;
use crate::json::member;
use crate::json::member_opt;
use crate::json::members_of;
use crate::json::opt_json_ref;
use crate::json::parse_json;
use crate::json::parsed_json;
use crate::json::plain;
use crate::json::print_json;
use crate::json::printed_json;
use crate::json::Json;
use crate::json::JsonVal;
use crate::text::after_prefix;
use crate::text::begins;
use crate::text::cat5;
use crate::text::has_sub;
use crate::text::lemma_prefix_is_less;
use crate::text::lemma_strs_push;
use crate::text::lines;
use crate::text::lines_of;
use crate::text::occurs_at;
use crate::text::opt_ref;
use crate::text::opt_str;
use crate::text::starts_with;
use crate::text::strip_prefix;
use crate::text::strs;
use crate::text::text_lt;
use crate::text::trim;
use crate::text::trim_end;
use crate::text::trim_end_of;
use crate::text::trim_of;

verus! {

/// The rule on writes into a mirror. Whoever meets it, from whichever side, reads this text.
pub const MIRROR_RULE: &'static str =
    "the docli mirror is a read-only cache: an edit made there is never synced and is destroyed with no conflict copy the next time that note changes on the server. To change a note, write through your docli MCP connection with `edit_note`, then run `docli sync`.";

/// The refusal of a write to one path.
pub open spec fn refusal(local: Seq<char>, mount_name: Seq<char>) -> Seq<char> {
    local + " is inside the docli mirror `"@ + mount_name + "` - "@ + MIRROR_RULE@
}

/// The refusal of a write to one path: the path, the mirror and the rule.
pub fn mirror_write_refusal(local: &str, mount_name: &str) -> (r: String)
    ensures
        r@ == refusal(local@, mount_name@),
        has_sub(r@, MIRROR_RULE@),
{
    let r = cat5(local, " is inside the docli mirror `", mount_name, "` - ", MIRROR_RULE);
    proof {
        let at = r@.len() - MIRROR_RULE@.len();
        assert(r@.subrange(at, r@.len() as int) =~= MIRROR_RULE@);
        assert(occurs_at(r@, MIRROR_RULE@, at));
    }
    r
}

/// What is decided about a tool call.
#[derive(Debug, PartialEq, Eq)]
pub enum Decision {
    Allow,
    Deny(String),
}

/// What a [`Decision`] says.
pub enum DecisionVal {
    Allow,
    Deny(Seq<char>),
}

impl Decision {
    pub open spec fn view(&self) -> DecisionVal {
        match self {
            Decision::Allow => DecisionVal::Allow,
            Decision::Deny(s) => DecisionVal::Deny(s@),
        }
    }
}

/// The text of a value, where it is a string that is not blank.
pub open spec fn inked(v: Option<JsonVal>) -> Seq<Seq<char>> {
    match as_text(v) {
        Some(t) => if trim_of(t).len() > 0 {
            seq![t]
        } else {
            Seq::empty()
        },
        None => Seq::empty(),
    }
}

/// The paths under the keys that carry one, in the order of the keys.
pub open spec fn keyed(v: JsonVal) -> Seq<Seq<char>> {
    inked(member(v, "file_path"@)) + inked(member(v, "filePath"@)) + inked(
        member(v, "notebook_path"@),
    ) + inked(member(v, "notebookPath"@)) + inked(member(v, "path"@))
}

/// The keyed paths of the first `n` edits.
pub open spec fn edited(edits: Seq<JsonVal>, n: nat) -> Seq<Seq<char>>
    decreases n,
{
    if n == 0 {
        Seq::empty()
    } else {
        edited(edits, (n - 1) as nat) + keyed(edits[n - 1])
    }
}

/// The texts among the first `n` elements of a list.
pub open spec fn listed(items: Seq<JsonVal>, n: nat) -> Seq<Seq<char>>
    decreases n,
{
    if n == 0 {
        Seq::empty()
    } else {
        listed(items, (n - 1) as nat) + inked(Some(items[n - 1]))
    }
}

pub open spec fn all_edited(v: Option<JsonVal>) -> Seq<Seq<char>> {
    match as_array(v) {
        Some(a) => edited(a, a.len()),
        None => Seq::empty(),
    }
}

pub open spec fn all_listed(v: Option<JsonVal>) -> Seq<Seq<char>> {
    match as_array(v) {
        Some(a) => listed(a, a.len()),
        None => Seq::empty(),
    }
}

/// What a line names after a marker that stands at its very beginning.
pub open spec fn marked_by(line: Seq<char>, marker: Seq<char>) -> Seq<Seq<char>> {
    match after_prefix(line, marker) {
        Some(rest) => if trim_of(rest).len() > 0 {
            seq![trim_of(rest)]
        } else {
            Seq::empty()
        },
        None => Seq::empty(),
    }
}

/// The path that one line of a patch envelope names.
pub open spec fn header_of(line: Seq<char>) -> Seq<Seq<char>> {
    let l = trim_end_of(line);
    marked_by(l, "*** Add File: "@) + marked_by(l, "*** Update File: "@) + marked_by(
        l,
        "*** Delete File: "@,
    ) + marked_by(l, "*** Move to: "@)
}

/// The paths that the first `n` lines name.
pub open spec fn headers(ls: Seq<Seq<char>>, n: nat) -> Seq<Seq<char>>
    decreases n,
{
    if n == 0 {
        Seq::empty()
    } else {
        headers(ls, (n - 1) as nat) + header_of(ls[n - 1])
    }
}

/// The paths that a patch envelope names.
pub open spec fn envelope(command: Seq<char>) -> Seq<Seq<char>> {
    headers(lines_of(command), lines_of(command).len())
}

pub open spec fn envelope_opt(command: Option<Seq<char>>) -> Seq<Seq<char>> {
    match command {
        Some(c) => envelope(c),
        None => Seq::empty(),
    }
}

/// The call goes to a server, and writes no file here.
pub open spec fn is_remote(payload: JsonVal) -> bool {
    match as_text(member(payload, "tool_name"@)) {
        Some(t) => begins(t, "mcp__"@),
        None => false,
    }
}

/// The paths that the input of a tool names.
pub open spec fn named_paths(input: JsonVal) -> Seq<Seq<char>> {
    keyed(input) + all_edited(member(input, "edits"@)) + all_listed(member(input, "file_paths"@))
        + all_listed(member(input, "paths"@)) + envelope_opt(as_text(member(input, "command"@)))
}

/// The paths that a tool call is about to write, in the order in which they appear.
pub open spec fn candidates(payload: JsonVal) -> Seq<Seq<char>> {
    if is_remote(payload) {
        Seq::empty()
    } else {
        match member(payload, "tool_input"@) {
            Some(input) => named_paths(input),
            None => Seq::empty(),
        }
    }
}

fn push_inked(out: &mut Vec<String>, v: Option<&Json>)
    ensures
        strs(final(out)@) == strs(old(out)@) + inked(opt_json_ref(v)),
{
    broadcast use lemma_strs_push;

    let ghost start = strs(out@);
    if let Some(j) = v {
        if let Some(s) = j.as_str() {
            let bare = trim(s);
            if !bare.as_str().is_empty() {
                out.push(s.to_owned());
                assert(strs(out@) =~= start + seq![s@]);
            }
        }
    }
    assert(strs(out@) =~= start + inked(opt_json_ref(v)));
}

fn push_keyed(out: &mut Vec<String>, v: &Json)
    ensures
        strs(final(out)@) == strs(old(out)@) + keyed(v.view()),
{
    let ghost start = strs(out@);
    push_inked(out, v.get("file_path"));
    push_inked(out, v.get("filePath"));
    push_inked(out, v.get("notebook_path"));
    push_inked(out, v.get("notebookPath"));
    push_inked(out, v.get("path"));
    assert(strs(out@) =~= start + keyed(v.view()));
}

fn push_edits(out: &mut Vec<String>, v: Option<&Json>)
    ensures
        strs(final(out)@) == strs(old(out)@) + all_edited(opt_json_ref(v)),
{
    broadcast use lemma_elements_view;

    let ghost start = strs(out@);
    if let Some(Json::Array(a)) = v {
        let ghost es = elements_of(a@);
        assert(start + edited(es, 0) =~= start);
        for i in 0..a.len()
            invariant
                es == elements_of(a@),
                strs(out@) == start + edited(es, i as nat),
        {
            push_keyed(out, &a[i]);
            assert(strs(out@) =~= start + edited(es, (i + 1) as nat));
        }
    } else {
        assert(start + Seq::empty() =~= start);
    }
}

fn push_list(out: &mut Vec<String>, v: Option<&Json>)
    ensures
        strs(final(out)@) == strs(old(out)@) + all_listed(opt_json_ref(v)),
{
    broadcast use lemma_elements_view;

    let ghost start = strs(out@);
    if let Some(Json::Array(a)) = v {
        let ghost es = elements_of(a@);
        assert(start + listed(es, 0) =~= start);
        for i in 0..a.len()
            invariant
                es == elements_of(a@),
                strs(out@) == start + listed(es, i as nat),
        {
            push_inked(out, Some(&a[i]));
            assert(strs(out@) =~= start + listed(es, (i + 1) as nat));
        }
    } else {
        assert(start + Seq::empty() =~= start);
    }
}

fn push_marked(out: &mut Vec<String>, line: &str, marker: &str)
    ensures
        strs(final(out)@) == strs(old(out)@) + marked_by(line@, marker@),
{
    broadcast use lemma_strs_push;

    let ghost start = strs(out@);
    if let Some(rest) = strip_prefix(line, marker) {
        let p = trim(rest.as_str());
        if !p.as_str().is_empty() {
            out.push(p);
        }
    }
    assert(strs(out@) =~= start + marked_by(line@, marker@));
}

/// The paths that a patch envelope names, and nothing else: a command without a marker at the
/// beginning of a line names none. A marker that a patch quotes stands behind the sign of its
/// hunk line, and is no header.
pub fn patch_envelope_paths(command: &str) -> (r: Vec<String>)
    ensures
        strs(r@) == envelope(command@),
{
    let ls = lines(command);
    let ghost all = lines_of(command@);
    let mut out: Vec<String> = Vec::new();
    assert(strs(out@) =~= headers(all, 0));
    for i in 0..ls.len()
        invariant
            all == strs(ls@),
            strs(out@) == headers(all, i as nat),
    {
        let ghost start = strs(out@);
        let l = trim_end(ls[i].as_str());
        push_marked(&mut out, l.as_str(), "*** Add File: ");
        push_marked(&mut out, l.as_str(), "*** Update File: ");
        push_marked(&mut out, l.as_str(), "*** Delete File: ");
        push_marked(&mut out, l.as_str(), "*** Move to: ");
        assert(all[i as int] == ls@[i as int]@);
        assert(strs(out@) =~= start + header_of(all[i as int]));
        assert(strs(out@) =~= headers(all, (i + 1) as nat));
    }
    out
}

fn append(out: &mut Vec<String>, more: &Vec<String>)
    ensures
        strs(final(out)@) == strs(old(out)@) + strs(more@),
{
    let ghost start = strs(out@);
    for i in 0..more.len()
        invariant
            strs(out@) == start + strs(more@).take(i as int),
    {
        broadcast use lemma_strs_push;

        out.push(more[i].clone());
        assert(strs(out@) =~= start + strs(more@).take(i + 1));
    }
    assert(strs(more@).take(more@.len() as int) =~= strs(more@));
}

/// Every path that a tool call is about to write, in the order in which they appear.
pub fn candidate_paths(payload: &Json) -> (r: Vec<String>)
    ensures
        strs(r@) == candidates(payload.view()),
{
    let mut out: Vec<String> = Vec::new();
    assert(strs(out@) =~= Seq::empty());
    if let Some(t) = payload.get("tool_name") {
        if let Some(name) = t.as_str() {
            if starts_with(name, "mcp__") {
                return out;
            }
        }
    }
    let input = match payload.get("tool_input") {
        Some(i) => i,
        None => return out,
    };
    push_keyed(&mut out, input);
    push_edits(&mut out, input.get("edits"));
    push_list(&mut out, input.get("file_paths"));
    push_list(&mut out, input.get("paths"));
    let ghost before = strs(out@);
    if let Some(c) = input.get("command") {
        if let Some(command) = c.as_str() {
            let patched = patch_envelope_paths(command);
            append(&mut out, &patched);
        }
    }
    assert(strs(out@) =~= before + envelope_opt(as_text(member(input.view(), "command"@))));
    assert(strs(out@) =~= named_paths(input.view()));
    out
}

/// How many links of a chain are followed.
pub const LINK_LIMIT: u8 = 8;

/// Where a link at `at` leads that reads `next`.
pub open spec fn led_to(at: Seq<ComponentVal>, next: Seq<ComponentVal>) -> Seq<ComponentVal> {
    if (next.len() > 0 && next[0] is Root) || at.len() == 0 || at.last() is Root {
        next
    } else {
        at.drop_last() + next
    }
}

/// A walk along a chain of links: a link is read at [`LinkWalk::at`] as long as
/// [`LinkWalk::more`] holds. A link whose target does not exist yet leads there all the same. A
/// chain that goes on behind [`LINK_LIMIT`] links, as a cycle does, leads nowhere: the path is
/// then the one that the walk began with.
#[derive(Debug)]
pub struct LinkWalk {
    start: Vec<Component>,
    at: Vec<Component>,
    left: u8,
}

impl LinkWalk {
    pub closed spec fn place(&self) -> Seq<ComponentVal> {
        components_of(self.at@)
    }

    /// The path that the walk began with.
    pub closed spec fn start(&self) -> Seq<ComponentVal> {
        components_of(self.start@)
    }

    /// How many times a link may still be read.
    pub closed spec fn left(&self) -> int {
        self.left as int
    }

    pub fn new(path: Vec<Component>) -> (r: LinkWalk)
        ensures
            r.start() == components_of(path@),
            r.place() == components_of(path@),
            r.left() == LINK_LIMIT + 1,
    {
        LinkWalk { at: copy_path(&path), start: path, left: LINK_LIMIT + 1 }
    }

    /// The path that was reached.
    pub fn at(&self) -> (r: &Vec<Component>)
        ensures
            components_of(r@) == self.place(),
    {
        &self.at
    }

    /// Is a link to be read there?
    pub fn more(&self) -> (r: bool)
        ensures
            r == (self.left() > 0),
    {
        self.left > 0
    }

    /// Goes on with what reading the link gave, ends where it gave nothing, and goes back to the
    /// start where it still gave something at the last time.
    pub fn step(&mut self, target: Option<Vec<Component>>)
        requires
            old(self).left() > 0,
        ensures
            final(self).start() == old(self).start(),
            match target {
                Some(next) => final(self).left() == old(self).left() - 1 && final(self).place()
                    == if old(self).left() == 1 {
                    old(self).start()
                } else {
                    led_to(old(self).place(), components_of(next@))
                },
                None => final(self).place() == old(self).place() && final(self).left() == 0,
            },
    {
        let mut next = match target {
            Some(n) => n,
            None => {
                self.left = 0;
                return;
            },
        };
        self.left = self.left - 1;
        if self.left == 0 {
            self.at = copy_path(&self.start);
            return;
        }
        let ghost from = components_of(self.at@);
        let ghost to = components_of(next@);
        let absolute: bool = next.len() > 0 && match &next[0] {
            Component::Root(_) => true,
            _ => false,
        };
        assert(next@.len() > 0 ==> to[0] == next@[0].view());
        let n: usize = self.at.len();
        let top: bool = n == 0 || match &self.at[n - 1] {
            Component::Root(_) => true,
            _ => false,
        };
        assert(n > 0 ==> from.last() == self.at@.last().view());
        if absolute || top {
            self.at = next;
            return;
        }
        self.at.pop();
        assert(components_of(self.at@) =~= from.drop_last());
        self.at.append(&mut next);
        assert(components_of(self.at@) =~= from.drop_last() + to);
    }
}

/// A path that a call names, and where it leads.
#[derive(Debug)]
pub struct Target {
    /// The path as the call spells it.
    pub spelled: String,
    /// The physical path that it leads to, in the spelling of
    /// [`geometry_key`](crate::config::geometry_key).
    pub key: Vec<String>,
}

/// The project that governs a call.
#[derive(Debug)]
pub struct Project {
    pub config: DocliToml,
    /// For each mount its display name, fit to be shown.
    pub names: Vec<String>,
    pub places: Vec<MountPlace>,
    pub place: ProjectPlace,
}

impl Project {
    /// There is a name and a place for each mount, and the table leaves no directory out: what a
    /// blank one means was filled in before the places were found out.
    pub open spec fn wf(&self) -> bool {
        &&& self.names@.len() == self.config.mounts@.len()
        &&& self.places@.len() == self.config.mounts@.len()
        &&& !needs_cache(mounts_of(self.config.mounts@))
    }
}

pub open spec fn target_keys(v: Seq<Target>) -> Seq<Seq<Seq<char>>> {
    Seq::new(v.len(), |i: int| strs(v[i].key@))
}

/// The first mirror from `j` on that holds the path.
pub open spec fn holder_from(keys: Seq<Seq<Seq<char>>>, path: Seq<Seq<char>>, j: int) -> Option<int>
    decreases keys.len() - j,
{
    if j >= keys.len() {
        None
    } else if holds(keys[j], path) {
        Some(j)
    } else {
        holder_from(keys, path, j + 1)
    }
}

/// The first path from `i` on that a mirror holds, and the first mirror that holds it.
pub open spec fn hit_from(
    keys: Seq<Seq<Seq<char>>>,
    paths: Seq<Seq<Seq<char>>>,
    i: int,
) -> Option<(int, int)>
    decreases paths.len() - i,
{
    if i >= paths.len() {
        None
    } else {
        match holder_from(keys, paths[i], 0) {
            Some(j) => Some((i, j)),
            None => hit_from(keys, paths, i + 1),
        }
    }
}

pub open spec fn opt_pair(o: Option<(usize, usize)>) -> Option<(int, int)> {
    match o {
        Some(p) => Some((p.0 as int, p.1 as int)),
        None => None,
    }
}

/// Some command would sync with this table: every rule on it holds, but for the one on git.
pub open spec fn usable(p: Project) -> bool {
    geometry_fault(mounts_of(p.config.mounts@), p.places@, p.place, false) is None
}

/// What is decided about the paths that a call is about to write.
pub open spec fn decided(project: Option<Project>, targets: Seq<Target>) -> DecisionVal {
    match project {
        None => DecisionVal::Allow,
        Some(p) => match hit_from(keys_of(p.places@), target_keys(targets), 0) {
            None => DecisionVal::Allow,
            Some(hit) => if usable(p) {
                DecisionVal::Deny(refusal(targets[hit.0].spelled@, p.names@[hit.1]@))
            } else {
                DecisionVal::Allow
            },
        },
    }
}

proof fn lemma_holder(keys: Seq<Seq<Seq<char>>>, path: Seq<Seq<char>>, j: int)
    requires
        0 <= j,
    ensures
        holder_from(keys, path, j) matches Some(k) ==> j <= k < keys.len() && holds(keys[k], path),
        holder_from(keys, path, j) is None ==> forall|k: int|
            j <= k < keys.len() ==> !holds(#[trigger] keys[k], path),
    decreases keys.len() - j,
{
    if j < keys.len() && !holds(keys[j], path) {
        lemma_holder(keys, path, j + 1);
    }
}

proof fn lemma_hit(keys: Seq<Seq<Seq<char>>>, paths: Seq<Seq<Seq<char>>>, i: int)
    requires
        0 <= i,
    ensures
        hit_from(keys, paths, i) matches Some(h) ==> i <= h.0 < paths.len() && 0 <= h.1 < keys.len()
            && holds(keys[h.1], paths[h.0]),
        hit_from(keys, paths, i) is None ==> forall|a: int, b: int|
            i <= a < paths.len() && 0 <= b < keys.len() ==> !holds(
                #[trigger] keys[b],
                #[trigger] paths[a],
            ),
    decreases paths.len() - i,
{
    if i < paths.len() {
        lemma_holder(keys, paths[i], 0);
        if holder_from(keys, paths[i], 0) is None {
            lemma_hit(keys, paths, i + 1);
        }
    }
}

/// The first path that lies in a mirror, and the mirror.
fn first_hit(places: &Vec<MountPlace>, targets: &Vec<Target>) -> (r: Option<(usize, usize)>)
    ensures
        opt_pair(r) == hit_from(keys_of(places@), target_keys(targets@), 0),
{
    let ghost keys = keys_of(places@);
    let ghost paths = target_keys(targets@);
    for i in 0..targets.len()
        invariant
            keys == keys_of(places@),
            paths == target_keys(targets@),
            hit_from(keys, paths, 0) == hit_from(keys, paths, i as int),
    {
        for j in 0..places.len()
            invariant
                i < targets@.len(),
                keys == keys_of(places@),
                paths == target_keys(targets@),
                hit_from(keys, paths, 0) == hit_from(keys, paths, i as int),
                holder_from(keys, paths[i as int], 0) == holder_from(
                    keys,
                    paths[i as int],
                    j as int,
                ),
        {
            assert(keys[j as int] == strs(places@[j as int].key@));
            if is_ancestor_or_self(&places[j].key, &targets[i].key) {
                return Some((i, j));
            }
        }
    }
    None
}

/// Decides about the paths that a call is about to write: refused is the first that lies in a
/// mirror of a project whose table some command would accept.
pub fn decide(project: &Option<Project>, targets: &Vec<Target>) -> (r: Decision)
    requires
        project matches Some(p) ==> p.wf(),
    ensures
        r.view() == decided(*project, targets@),
{
    let p = match project {
        Some(p) => p,
        None => return Decision::Allow,
    };
    proof {
        lemma_hit(keys_of(p.places@), target_keys(targets@), 0);
    }
    match first_hit(&p.places, targets) {
        None => Decision::Allow,
        Some(hit) => {
            if validate_geometry_paths_only(&p.config, &p.places, &p.place).is_err() {
                return Decision::Allow;
            }
            Decision::Deny(
                mirror_write_refusal(targets[hit.0].spelled.as_str(), p.names[hit.1].as_str()),
            )
        },
    }
}

/// A call that writes into a mirror of a usable project is refused, whatever else it writes.
pub proof fn a_write_into_a_mirror_is_denied(p: Project, targets: Seq<Target>, i: int, j: int)
    requires
        usable(p),
        0 <= i < targets.len(),
        0 <= j < p.places@.len(),
        holds(strs(p.places@[j].key@), strs(targets[i].key@)),
    ensures
        decided(Some(p), targets) is Deny,
{
    let keys = keys_of(p.places@);
    let paths = target_keys(targets);
    lemma_hit(keys, paths, 0);
    assert(holds(keys[j], paths[i]));
}

/// Only a call that writes into a mirror of a usable project is refused, and the refusal states
/// the rule.
pub proof fn only_writes_into_a_mirror_are_denied(project: Option<Project>, targets: Seq<Target>)
    requires
        decided(project, targets) is Deny,
    ensures
        project is Some,
        usable(project->0),
        exists|i: int, j: int|
            0 <= i < targets.len() && 0 <= j < project->0.places@.len() && holds(
                strs((#[trigger] project->0.places@[j]).key@),
                strs((#[trigger] targets[i]).key@),
            ),
        has_sub(decided(project, targets)->0, MIRROR_RULE@),
{
    let p = project->0;
    let keys = keys_of(p.places@);
    let paths = target_keys(targets);
    lemma_hit(keys, paths, 0);
    let hit = hit_from(keys, paths, 0)->0;
    assert(holds(strs(p.places@[hit.1].key@), strs(targets[hit.0].key@)));
    let said = refusal(targets[hit.0].spelled@, p.names@[hit.1]@);
    let at = said.len() - MIRROR_RULE@.len();
    assert(said.subrange(at, said.len() as int) =~= MIRROR_RULE@);
    assert(occurs_at(said, MIRROR_RULE@, at));
}

/// A call to a server names no path here, whatever its input holds.
pub proof fn a_remote_call_is_never_ruled_on(payload: JsonVal)
    requires
        is_remote(payload),
    ensures
        candidates(payload).len() == 0,
{
}

/// What an agent is told of a refusal.
pub open spec fn denial(reason: Seq<char>) -> JsonVal {
    JsonVal::Object(
        seq![
            (
                "hookSpecificOutput"@,
                JsonVal::Object(
                    seq![
                        ("hookEventName"@, JsonVal::Text("PreToolUse"@)),
                        ("permissionDecision"@, JsonVal::Text("deny"@)),
                        ("permissionDecisionReason"@, JsonVal::Text(reason)),
                    ],
                ),
            ),
        ],
    )
}

/// What an agent is told of a refusal.
pub fn deny_body(reason: &str) -> (r: Json)
    ensures
        r.view() == denial(reason@),
{
    broadcast use lemma_members_view;

    let mut inner: Vec<(String, Json)> = Vec::new();
    inner.push(("hookEventName".to_owned(), Json::Text("PreToolUse".to_owned())));
    inner.push(("permissionDecision".to_owned(), Json::Text("deny".to_owned())));
    inner.push(("permissionDecisionReason".to_owned(), Json::Text(reason.to_owned())));
    let ghost said = members_of(inner@);
    assert(said =~= denial(reason@)->Object_0[0].1->Object_0);
    let mut outer: Vec<(String, Json)> = Vec::new();
    outer.push(("hookSpecificOutput".to_owned(), Json::Object(inner)));
    assert(members_of(outer@) =~= denial(reason@)->Object_0);
    Json::Object(outer)
}

proof fn lemma_denial_is_plain(reason: Seq<char>)
    ensures
        plain(denial(reason), 127),
{
    reveal_strlit("hookEventName");
    reveal_strlit("permissionDecision");
    reveal_strlit("permissionDecisionReason");
    let m = denial(reason)->Object_0[0].1->Object_0;
    assert("hookEventName"@[0] == 'h' && "permissionDecision"@[0] == 'p');
    assert("permissionDecisionReason"@[0] == 'p');
    assert("permissionDecisionReason"@ =~= "permissionDecision"@
        + "permissionDecisionReason"@.skip(18));
    lemma_prefix_is_less("permissionDecision"@, "permissionDecisionReason"@.skip(18));
    assert forall|i: int| 0 <= i < m.len() implies plain((#[trigger] m[i]).1, 125) by {
        assert(i == 0 || i == 1 || i == 2);
    }
    assert forall|i: int, j: int| 0 <= i < j < m.len() implies text_lt(
        (#[trigger] m[i]).0,
        (#[trigger] m[j]).0,
    ) by {
        assert(i == 0 || i == 1);
        assert(j == 1 || j == 2);
    }
    assert(plain(JsonVal::Object(m), 126));
}

/// What is printed for a decision. Nothing for an allowed call: to print an approval would
/// override the permission rules of the user. Both agents read the same envelope, and read the
/// refusal out of it with its reason.
pub fn response(agent: HookAgent, decision: &Decision) -> (r: Option<String>)
    ensures
        opt_str(r) == match decision.view() {
            DecisionVal::Allow => None,
            DecisionVal::Deny(reason) => Some(printed_json(denial(reason))),
        },
        decision.view() matches DecisionVal::Deny(reason) ==> parsed_json(opt_str(r)->0) == Some(
            denial(reason),
        ),
{
    match decision {
        Decision::Allow => None,
        Decision::Deny(reason) => {
            proof {
                lemma_denial_is_plain(reason@);
            }
            let body = match agent {
                HookAgent::ClaudeCode(_) | HookAgent::Codex => deny_body(reason.as_str()),
            };
            Some(print_json(&body))
        },
    }
}

/// What a call asks about.
#[derive(Debug)]
pub struct Question {
    /// The directory whose project governs, and from which relative paths are taken.
    pub cwd: String,
    pub paths: Vec<String>,
}

/// The directory that governs: the one that the call itself names, else the one of this process,
/// else `.`.
pub open spec fn governing(payload: JsonVal, here: Option<Seq<char>>) -> Seq<char> {
    match as_text(member(payload, "cwd"@)) {
        Some(c) => c,
        None => match here {
            Some(h) => h,
            None => "."@,
        },
    }
}

/// What a payload asks about. The directory of the process, `here`, may be another than the
/// agent's: the payload's own comes first.
pub fn question(payload: &Json, here: Option<&str>) -> (r: Question)
    ensures
        r.cwd@ == governing(payload.view(), opt_ref(here)),
        strs(r.paths@) == candidates(payload.view()),
{
    let paths = candidate_paths(payload);
    let told = match payload.get("cwd") {
        Some(c) => c.as_str(),
        None => None,
    };
    let cwd = match told {
        Some(c) => c.to_owned(),
        None => match here {
            Some(h) => h.to_owned(),
            None => ".".to_owned(),
        },
    };
    Question { cwd, paths }
}

/// What a call asks about, from the text that the agent handed over; `None`, which allows, where
/// that could not be read or is no JSON.
pub fn read_question(raw: Option<&str>, here: Option<&str>) -> (r: Option<Question>)
    ensures
        r is Some <==> (raw matches Some(text) && parsed_json(text@) is Some),
        r matches Some(q) ==> q.cwd@ == governing(parsed_json(raw->0@)->0, opt_ref(here)) && strs(
            q.paths@,
        ) == candidates(parsed_json(raw->0@)->0),
{
    let text = match raw {
        Some(t) => t,
        None => return None,
    };
    match parse_json(text) {
        Some(payload) => Some(question(&payload, here)),
        None => None,
    }
}

/// The exit code of the guard, always: a refusal is carried by what is printed, and any other code
/// would be taken for a broken hook.
pub const EXIT: i32 = 0;

/// What the guard prints and its exit code.
pub fn run(
    agent: HookAgent,
    asked: &Option<Question>,
    project: &Option<Project>,
    targets: &Vec<Target>,
) -> (r: (Option<String>, i32))
    requires
        project matches Some(p) ==> p.wf(),
    ensures
        r.1 == EXIT,
        opt_str(r.0) == if asked is None {
            None
        } else {
            match decided(*project, targets@) {
                DecisionVal::Allow => None,
                DecisionVal::Deny(reason) => Some(printed_json(denial(reason))),
            }
        },
{
    if asked.is_none() {
        return (None, EXIT);
    }
    let decision = decide(project, targets);
    (response(agent, &decision), EXIT)
}

proof fn lemma_marked(line: Seq<char>, marker: Seq<char>, rest: Seq<char>)
    ensures
        line == marker + rest && trim_of(rest).len() > 0 ==> marked_by(line, marker) == seq![
            trim_of(rest),
        ],
        forall|p: Seq<char>| #[trigger]
            marked_by(line, marker).contains(p) ==> p.len() > 0 && begins(line, marker) && p
                == trim_of(line.skip(marker.len() as int)),
{
    if line == marker + rest {
        assert(line.take(marker.len() as int) =~= marker);
        assert(line.subrange(0, marker.len() as int) =~= marker);
        assert(line.skip(marker.len() as int) =~= rest);
        assert(line.subrange(marker.len() as int, line.len() as int) =~= rest);
    }
    assert forall|p: Seq<char>| #[trigger] marked_by(line, marker).contains(p) implies p.len() > 0
        && begins(line, marker) && p == trim_of(line.skip(marker.len() as int)) by {
        assert(line.subrange(marker.len() as int, line.len() as int) =~= line.skip(
            marker.len() as int,
        ));
    }
}

proof fn lemma_headers(ls: Seq<Seq<char>>, n: nat)
    requires
        n <= ls.len(),
    ensures
        forall|i: int, p: Seq<char>|
            #![trigger ls[i], headers(ls, n).contains(p)]
            0 <= i < n && header_of(ls[i]).contains(p) ==> headers(ls, n).contains(p),
        forall|p: Seq<char>| #[trigger]
            headers(ls, n).contains(p) ==> exists|i: int|
                0 <= i < n && header_of(#[trigger] ls[i]).contains(p),
    decreases n,
{
    if n > 0 {
        let before = headers(ls, (n - 1) as nat);
        let own = header_of(ls[n - 1]);
        let r = headers(ls, n);
        lemma_headers(ls, (n - 1) as nat);
        assert forall|i: int, p: Seq<char>|
            #![trigger ls[i], r.contains(p)]
            0 <= i < n && header_of(ls[i]).contains(p) implies r.contains(p) by {
            if i < n - 1 {
                assert(before.contains(p));
                let q = choose|q: int| 0 <= q < before.len() && before[q] == p;
                assert(r[q] == p);
            } else {
                let q = choose|q: int| 0 <= q < own.len() && own[q] == p;
                assert(r[before.len() + q] == p);
            }
        }
        assert forall|p: Seq<char>| #[trigger] r.contains(p) implies exists|i: int|
            0 <= i < n && header_of(#[trigger] ls[i]).contains(p) by {
            let q = choose|q: int| 0 <= q < r.len() && r[q] == p;
            if q < before.len() {
                assert(before[q] == p);
                assert(before.contains(p));
            } else {
                assert(own[q - before.len()] == p);
                assert(header_of(ls[n - 1]).contains(p));
            }
        }
    }
}

proof fn lemma_header_of(line: Seq<char>, marker: Seq<char>, rest: Seq<char>)
    requires
        marker == "*** Add File: "@ || marker == "*** Update File: "@ || marker
            == "*** Delete File: "@ || marker == "*** Move to: "@,
        trim_end_of(line) == marker + rest,
        trim_of(rest).len() > 0,
    ensures
        header_of(line).contains(trim_of(rest)),
{
    let l = trim_end_of(line);
    let a = marked_by(l, "*** Add File: "@);
    let b = marked_by(l, "*** Update File: "@);
    let c = marked_by(l, "*** Delete File: "@);
    let d = marked_by(l, "*** Move to: "@);
    lemma_marked(l, marker, rest);
    let h = header_of(line);
    if marker == "*** Add File: "@ {
        assert(h[0] == trim_of(rest));
    } else if marker == "*** Update File: "@ {
        assert(h[a.len() as int] == trim_of(rest));
    } else if marker == "*** Delete File: "@ {
        assert(h[(a + b).len() as int] == trim_of(rest));
    } else {
        assert(h[(a + b + c).len() as int] == trim_of(rest));
    }
}

/// Every line of a command that, less trailing whitespace, is one of the four markers and a path
/// with ink names that path, less the whitespace around it, whatever the other lines name.
pub proof fn every_marked_line_names_its_path(
    command: Seq<char>,
    i: int,
    marker: Seq<char>,
    rest: Seq<char>,
)
    requires
        0 <= i < lines_of(command).len(),
        marker == "*** Add File: "@ || marker == "*** Update File: "@ || marker
            == "*** Delete File: "@ || marker == "*** Move to: "@,
        trim_end_of(lines_of(command)[i]) == marker + rest,
        trim_of(rest).len() > 0,
    ensures
        envelope(command).contains(trim_of(rest)),
{
    let ls = lines_of(command);
    lemma_headers(ls, ls.len());
    lemma_header_of(ls[i], marker, rest);
    assert(header_of(ls[i]).contains(trim_of(rest)));
}

/// Every path that a command names in this way stands on such a line.
pub proof fn only_marked_lines_name_a_path(command: Seq<char>, p: Seq<char>)
    requires
        envelope(command).contains(p),
    ensures
        p.len() > 0,
        exists|i: int, marker: Seq<char>|
            #![trigger lines_of(command)[i], trim_of(
                trim_end_of(lines_of(command)[i]).skip(marker.len() as int),
            )]
            0 <= i < lines_of(command).len() && (marker == "*** Add File: "@ || marker
                == "*** Update File: "@ || marker == "*** Delete File: "@ || marker
                == "*** Move to: "@) && marker.is_prefix_of(trim_end_of(lines_of(command)[i])) && p
                == trim_of(trim_end_of(lines_of(command)[i]).skip(marker.len() as int)),
{
    let ls = lines_of(command);
    lemma_headers(ls, ls.len());
    let i = choose|i: int| 0 <= i < ls.len() && header_of(#[trigger] ls[i]).contains(p);
    let l = trim_end_of(ls[i]);
    let a = marked_by(l, "*** Add File: "@);
    let b = marked_by(l, "*** Update File: "@);
    let c = marked_by(l, "*** Delete File: "@);
    let d = marked_by(l, "*** Move to: "@);
    let h = header_of(ls[i]);
    let q = choose|q: int| 0 <= q < h.len() && h[q] == p;
    let m = if q < a.len() {
        assert(a[q] == p);
        "*** Add File: "@
    } else if q < (a + b).len() {
        assert(b[q - a.len()] == p);
        "*** Update File: "@
    } else if q < (a + b + c).len() {
        assert(c[q - (a + b).len()] == p);
        "*** Delete File: "@
    } else {
        assert(d[q - (a + b + c).len()] == p);
        "*** Move to: "@
    };
    assert(marked_by(l, m).contains(p));
    lemma_marked(l, m, Seq::empty());
    assert(begins(l, m));
    assert(l.take(m.len() as int) =~= m);
    assert(m.is_prefix_of(l));
    assert(p == trim_of(trim_end_of(ls[i]).skip(m.len() as int)));
}

proof fn lemma_keyed(v: JsonVal, key: Seq<char>, t: Seq<char>)
    requires
        key == "file_path"@ || key == "filePath"@ || key == "notebook_path"@ || key
            == "notebookPath"@ || key == "path"@,
        member(v, key) == Some(JsonVal::Text(t)),
        trim_of(t).len() > 0,
    ensures
        keyed(v).contains(t),
{
    let a = inked(member(v, "file_path"@));
    let b = inked(member(v, "filePath"@));
    let c = inked(member(v, "notebook_path"@));
    let d = inked(member(v, "notebookPath"@));
    let e = inked(member(v, "path"@));
    assert(inked(member(v, key)) == seq![t]);
    if key == "file_path"@ {
        assert(keyed(v)[0] == t);
    } else if key == "filePath"@ {
        assert(keyed(v)[a.len() as int] == t);
    } else if key == "notebook_path"@ {
        assert(keyed(v)[(a + b).len() as int] == t);
    } else if key == "notebookPath"@ {
        assert(keyed(v)[(a + b + c).len() as int] == t);
    } else {
        assert(keyed(v)[(a + b + c + d).len() as int] == t);
    }
}

proof fn lemma_keyed_only(v: JsonVal, t: Seq<char>)
    requires
        keyed(v).contains(t),
    ensures
        trim_of(t).len() > 0,
        exists|key: Seq<char>|
            (key == "file_path"@ || key == "filePath"@ || key == "notebook_path"@ || key
                == "notebookPath"@ || key == "path"@) && #[trigger] member(v, key) == Some(
                JsonVal::Text(t),
            ),
{
    let a = inked(member(v, "file_path"@));
    let b = inked(member(v, "filePath"@));
    let c = inked(member(v, "notebook_path"@));
    let d = inked(member(v, "notebookPath"@));
    let e = inked(member(v, "path"@));
    let q = choose|q: int| 0 <= q < keyed(v).len() && keyed(v)[q] == t;
    if q < a.len() {
        assert(a[q] == t);
        assert(member(v, "file_path"@) == Some(JsonVal::Text(t)));
    } else if q < (a + b).len() {
        assert(b[q - a.len()] == t);
        assert(member(v, "filePath"@) == Some(JsonVal::Text(t)));
    } else if q < (a + b + c).len() {
        assert(c[q - (a + b).len()] == t);
        assert(member(v, "notebook_path"@) == Some(JsonVal::Text(t)));
    } else if q < (a + b + c + d).len() {
        assert(d[q - (a + b + c).len()] == t);
        assert(member(v, "notebookPath"@) == Some(JsonVal::Text(t)));
    } else {
        assert(e[q - (a + b + c + d).len()] == t);
        assert(member(v, "path"@) == Some(JsonVal::Text(t)));
    }
}

proof fn lemma_edited(edits: Seq<JsonVal>, n: nat)
    requires
        n <= edits.len(),
    ensures
        forall|i: int, p: Seq<char>|
            #![trigger edits[i], edited(edits, n).contains(p)]
            0 <= i < n && keyed(edits[i]).contains(p) ==> edited(edits, n).contains(p),
        forall|p: Seq<char>| #[trigger]
            edited(edits, n).contains(p) ==> exists|i: int|
                0 <= i < n && keyed(#[trigger] edits[i]).contains(p),
    decreases n,
{
    if n > 0 {
        let before = edited(edits, (n - 1) as nat);
        let own = keyed(edits[n - 1]);
        let r = edited(edits, n);
        lemma_edited(edits, (n - 1) as nat);
        assert forall|i: int, p: Seq<char>|
            #![trigger edits[i], r.contains(p)]
            0 <= i < n && keyed(edits[i]).contains(p) implies r.contains(p) by {
            if i < n - 1 {
                assert(before.contains(p));
                let q = choose|q: int| 0 <= q < before.len() && before[q] == p;
                assert(r[q] == p);
            } else {
                let q = choose|q: int| 0 <= q < own.len() && own[q] == p;
                assert(r[before.len() + q] == p);
            }
        }
        assert forall|p: Seq<char>| #[trigger] r.contains(p) implies exists|i: int|
            0 <= i < n && keyed(#[trigger] edits[i]).contains(p) by {
            let q = choose|q: int| 0 <= q < r.len() && r[q] == p;
            if q < before.len() {
                assert(before[q] == p);
                assert(before.contains(p));
            } else {
                assert(own[q - before.len()] == p);
                assert(keyed(edits[n - 1]).contains(p));
            }
        }
    }
}

proof fn lemma_listed(items: Seq<JsonVal>, n: nat)
    requires
        n <= items.len(),
    ensures
        forall|i: int, p: Seq<char>|
            #![trigger items[i], listed(items, n).contains(p)]
            0 <= i < n && items[i] == JsonVal::Text(p) && trim_of(p).len() > 0 ==> listed(
                items,
                n,
            ).contains(p),
        forall|p: Seq<char>| #[trigger]
            listed(items, n).contains(p) ==> trim_of(p).len() > 0 && exists|i: int|
                0 <= i < n && #[trigger] items[i] == JsonVal::Text(p),
    decreases n,
{
    if n > 0 {
        let before = listed(items, (n - 1) as nat);
        let own = inked(Some(items[n - 1]));
        let r = listed(items, n);
        lemma_listed(items, (n - 1) as nat);
        assert forall|i: int, p: Seq<char>|
            #![trigger items[i], r.contains(p)]
            0 <= i < n && items[i] == JsonVal::Text(p) && trim_of(p).len()
                > 0 implies r.contains(p) by {
            if i < n - 1 {
                assert(before.contains(p));
                let q = choose|q: int| 0 <= q < before.len() && before[q] == p;
                assert(r[q] == p);
            } else {
                assert(own[0] == p);
                assert(r[before.len() as int] == p);
            }
        }
        assert forall|p: Seq<char>| #[trigger] r.contains(p) implies trim_of(p).len() > 0
            && exists|i: int| 0 <= i < n && #[trigger] items[i] == JsonVal::Text(p) by {
            let q = choose|q: int| 0 <= q < r.len() && r[q] == p;
            if q < before.len() {
                assert(before[q] == p);
                assert(before.contains(p));
            } else {
                assert(own[q - before.len()] == p);
                assert(items[n - 1] == JsonVal::Text(p));
            }
        }
    }
}

/// The input of a tool names the path `p`: under one of the keys that carry one, in one of its
/// edits, in one of its lists, or on a marked line of its command.
pub open spec fn mentions(input: JsonVal, p: Seq<char>) -> bool {
    ||| trim_of(p).len() > 0 && (member(input, "file_path"@) == Some(JsonVal::Text(p)) || member(
        input,
        "filePath"@,
    ) == Some(JsonVal::Text(p)) || member(input, "notebook_path"@) == Some(JsonVal::Text(p))
        || member(input, "notebookPath"@) == Some(JsonVal::Text(p)) || member(input, "path"@)
        == Some(JsonVal::Text(p)))
    ||| trim_of(p).len() > 0 && (member(input, "edits"@) matches Some(JsonVal::Array(a)) && exists|
        i: int,
    |
        #![trigger a[i]]
        0 <= i < a.len() && (member(a[i], "file_path"@) == Some(JsonVal::Text(p)) || member(
            a[i],
            "filePath"@,
        ) == Some(JsonVal::Text(p)) || member(a[i], "notebook_path"@) == Some(JsonVal::Text(p))
            || member(a[i], "notebookPath"@) == Some(JsonVal::Text(p)) || member(a[i], "path"@)
            == Some(JsonVal::Text(p))))
    ||| trim_of(p).len() > 0 && (member(input, "file_paths"@) matches Some(JsonVal::Array(a))
        && exists|i: int| 0 <= i < a.len() && #[trigger] a[i] == JsonVal::Text(p))
    ||| trim_of(p).len() > 0 && (member(input, "paths"@) matches Some(JsonVal::Array(a)) && exists|
        i: int,
    | 0 <= i < a.len() && #[trigger] a[i] == JsonVal::Text(p))
    ||| member(input, "command"@) matches Some(JsonVal::Text(c)) && envelope(c).contains(p)
}

proof fn lemma_named_paths(input: JsonVal, p: Seq<char>)
    ensures
        named_paths(input).contains(p) <==> mentions(input, p),
{
    let a = keyed(input);
    let b = all_edited(member(input, "edits"@));
    let c = all_listed(member(input, "file_paths"@));
    let d = all_listed(member(input, "paths"@));
    let e = envelope_opt(as_text(member(input, "command"@)));
    let all = named_paths(input);
    if let Some(JsonVal::Array(v)) = member(input, "edits"@) {
        lemma_edited(v, v.len());
        assert forall|i: int| 0 <= i < v.len() implies (keyed(#[trigger] v[i]).contains(p) <==> (
        trim_of(p).len() > 0 && (member(v[i], "file_path"@) == Some(JsonVal::Text(p)) || member(
            v[i],
            "filePath"@,
        ) == Some(JsonVal::Text(p)) || member(v[i], "notebook_path"@) == Some(JsonVal::Text(p))
            || member(v[i], "notebookPath"@) == Some(JsonVal::Text(p)) || member(v[i], "path"@)
            == Some(JsonVal::Text(p))))) by {
            lemma_keys_name(v[i], p);
        }
        assert(b.contains(p) <==> exists|i: int|
            0 <= i < v.len() && keyed(#[trigger] v[i]).contains(p));
    }
    if let Some(JsonVal::Array(v)) = member(input, "file_paths"@) {
        lemma_listed(v, v.len());
        assert(c.contains(p) <==> trim_of(p).len() > 0 && exists|i: int|
            0 <= i < v.len() && #[trigger] v[i] == JsonVal::Text(p));
    }
    if let Some(JsonVal::Array(v)) = member(input, "paths"@) {
        lemma_listed(v, v.len());
        assert(d.contains(p) <==> trim_of(p).len() > 0 && exists|i: int|
            0 <= i < v.len() && #[trigger] v[i] == JsonVal::Text(p));
    }
    lemma_keys_name(input, p);
    lemma_five(a, b, c, d, e, p);
}

proof fn lemma_keys_name(v: JsonVal, p: Seq<char>)
    ensures
        keyed(v).contains(p) <==> trim_of(p).len() > 0 && (member(v, "file_path"@) == Some(
            JsonVal::Text(p),
        ) || member(v, "filePath"@) == Some(JsonVal::Text(p)) || member(v, "notebook_path"@)
            == Some(JsonVal::Text(p)) || member(v, "notebookPath"@) == Some(JsonVal::Text(p))
            || member(v, "path"@) == Some(JsonVal::Text(p))),
{
    if keyed(v).contains(p) {
        lemma_keyed_only(v, p);
    }
    if trim_of(p).len() > 0 {
        if member(v, "file_path"@) == Some(JsonVal::Text(p)) {
            lemma_keyed(v, "file_path"@, p);
        } else if member(v, "filePath"@) == Some(JsonVal::Text(p)) {
            lemma_keyed(v, "filePath"@, p);
        } else if member(v, "notebook_path"@) == Some(JsonVal::Text(p)) {
            lemma_keyed(v, "notebook_path"@, p);
        } else if member(v, "notebookPath"@) == Some(JsonVal::Text(p)) {
            lemma_keyed(v, "notebookPath"@, p);
        } else if member(v, "path"@) == Some(JsonVal::Text(p)) {
            lemma_keyed(v, "path"@, p);
        }
    }
}

proof fn lemma_five(
    a: Seq<Seq<char>>,
    b: Seq<Seq<char>>,
    c: Seq<Seq<char>>,
    d: Seq<Seq<char>>,
    e: Seq<Seq<char>>,
    p: Seq<char>,
)
    ensures
        (a + b + c + d + e).contains(p) <==> a.contains(p) || b.contains(p) || c.contains(p)
            || d.contains(p) || e.contains(p),
{
    let all = a + b + c + d + e;
    if all.contains(p) {
        let q = choose|q: int| 0 <= q < all.len() && all[q] == p;
        if q < a.len() {
            assert(a[q] == p);
        } else if q < (a + b).len() {
            assert(b[q - a.len()] == p);
        } else if q < (a + b + c).len() {
            assert(c[q - (a + b).len()] == p);
        } else if q < (a + b + c + d).len() {
            assert(d[q - (a + b + c).len()] == p);
        } else {
            assert(e[q - (a + b + c + d).len()] == p);
        }
    }
    if a.contains(p) {
        let q = choose|q: int| 0 <= q < a.len() && a[q] == p;
        assert(all[q] == p);
    }
    if b.contains(p) {
        let q = choose|q: int| 0 <= q < b.len() && b[q] == p;
        assert(all[a.len() + q] == p);
    }
    if c.contains(p) {
        let q = choose|q: int| 0 <= q < c.len() && c[q] == p;
        assert(all[(a + b).len() + q] == p);
    }
    if d.contains(p) {
        let q = choose|q: int| 0 <= q < d.len() && d[q] == p;
        assert(all[(a + b + c).len() + q] == p);
    }
    if e.contains(p) {
        let q = choose|q: int| 0 <= q < e.len() && e[q] == p;
        assert(all[(a + b + c + d).len() + q] == p);
    }
}

/// A call that goes to no server is about to write exactly the paths that its input mentions: each
/// of them, however many others it mentions, and no other.
pub proof fn a_local_call_writes_what_its_input_mentions(
    payload: JsonVal,
    input: JsonVal,
    p: Seq<char>,
)
    requires
        member(payload, "tool_input"@) == Some(input),
        !(member(payload, "tool_name"@) matches Some(JsonVal::Text(t)) && "mcp__"@.is_prefix_of(t)),
    ensures
        candidates(payload).contains(p) <==> mentions(input, p),
{
    if is_remote(payload) {
        let t = as_text(member(payload, "tool_name"@))->0;
        assert(t.take("mcp__"@.len() as int) =~= "mcp__"@);
    }
    lemma_named_paths(input, p);
}

/// A path on a marked line of a call's command is among the paths that the call is about to write,
/// whatever other lines name.
pub proof fn a_marked_line_of_a_call_is_a_write(
    payload: JsonVal,
    input: JsonVal,
    command: Seq<char>,
    i: int,
    marker: Seq<char>,
    rest: Seq<char>,
)
    requires
        member(payload, "tool_input"@) == Some(input),
        !(member(payload, "tool_name"@) matches Some(JsonVal::Text(t)) && "mcp__"@.is_prefix_of(t)),
        member(input, "command"@) == Some(JsonVal::Text(command)),
        0 <= i < lines_of(command).len(),
        marker == "*** Add File: "@ || marker == "*** Update File: "@ || marker
            == "*** Delete File: "@ || marker == "*** Move to: "@,
        trim_end_of(lines_of(command)[i]) == marker + rest,
        trim_of(rest).len() > 0,
    ensures
        candidates(payload).contains(trim_of(rest)),
{
    every_marked_line_names_its_path(command, i, marker, rest);
    a_local_call_writes_what_its_input_mentions(payload, input, trim_of(rest));
}

/// A call without an input writes nothing here.
pub proof fn a_call_without_input_writes_nothing(payload: JsonVal)
    requires
        member(payload, "tool_input"@) is None,
    ensures
        candidates(payload).len() == 0,
{
}

/// A call whose tool is named like one of a server's writes nothing here, whatever its input
/// holds.
pub proof fn a_call_to_a_server_writes_nothing(payload: JsonVal, tool: Seq<char>)
    requires
        member(payload, "tool_name"@) == Some(JsonVal::Text("mcp__"@ + tool)),
    ensures
        candidates(payload).len() == 0,
{
    let t = "mcp__"@ + tool;
    assert(t.subrange(0, "mcp__"@.len() as int) =~= "mcp__"@);
    assert(t.take("mcp__"@.len() as int) =~= "mcp__"@);
}

/// The refusal names the first path of the call that lies in a mirror, as the call spells it, and
/// the first mirror that it lies in, and states the rule.
pub proof fn the_refusal_names_the_first_write(p: Project, targets: Seq<Target>, i: int, j: int)
    requires
        geometry_fault(mounts_of(p.config.mounts@), p.places@, p.place, false) is None,
        0 <= i < targets.len(),
        0 <= j < p.places@.len(),
        strs(p.places@[j].key@).is_prefix_of(strs(targets[i].key@)),
        forall|a: int, b: int|
            0 <= a < i && 0 <= b < p.places@.len() ==> !strs(
                (#[trigger] p.places@[b]).key@,
            ).is_prefix_of(strs((#[trigger] targets[a]).key@)),
        forall|b: int|
            0 <= b < j ==> !strs((#[trigger] p.places@[b]).key@).is_prefix_of(
                strs(targets[i].key@),
            ),
    ensures
        decided(Some(p), targets) == DecisionVal::Deny(
            targets[i].spelled@ + " is inside the docli mirror `"@ + p.names@[j]@ + "` - "@
                + MIRROR_RULE@,
        ),
{
    let keys = keys_of(p.places@);
    let paths = target_keys(targets);
    lemma_hit(keys, paths, 0);
    assert forall|a: int, b: int|
        0 <= a < targets.len() && 0 <= b < keys.len() implies (holds(
        #[trigger] keys[b],
        #[trigger] paths[a],
    ) <==> strs(p.places@[b].key@).is_prefix_of(strs(targets[a].key@))) by {
        lemma_prefix_either_way(keys[b], paths[a]);
    }
    assert(holds(keys[j], paths[i]));
    lemma_first_hit(keys, paths, 0, i, j);
}

proof fn lemma_prefix_either_way(a: Seq<Seq<char>>, b: Seq<Seq<char>>)
    ensures
        holds(a, b) <==> a.is_prefix_of(b),
{
    if a.len() <= b.len() {
        assert(b.take(a.len() as int) =~= b.subrange(0, a.len() as int));
    }
}

proof fn lemma_first_hit(
    keys: Seq<Seq<Seq<char>>>,
    paths: Seq<Seq<Seq<char>>>,
    from: int,
    i: int,
    j: int,
)
    requires
        0 <= from <= i < paths.len(),
        0 <= j < keys.len(),
        holds(keys[j], paths[i]),
        forall|a: int, b: int|
            from <= a < i && 0 <= b < keys.len() ==> !holds(
                #[trigger] keys[b],
                #[trigger] paths[a],
            ),
        forall|b: int| 0 <= b < j ==> !holds(#[trigger] keys[b], paths[i]),
    ensures
        hit_from(keys, paths, from) == Some((i, j)),
    decreases i - from,
{
    lemma_holder(keys, paths[from], 0);
    if from < i {
        if let Some(b) = holder_from(keys, paths[from], 0) {
            assert(!holds(keys[b], paths[from]));
        }
        lemma_first_hit(keys, paths, from + 1, i, j);
    } else {
        lemma_first_holder(keys, paths[i], 0, j);
    }
}

proof fn lemma_first_holder(keys: Seq<Seq<Seq<char>>>, path: Seq<Seq<char>>, from: int, j: int)
    requires
        0 <= from <= j < keys.len(),
        holds(keys[j], path),
        forall|b: int| 0 <= b < j ==> !holds(#[trigger] keys[b], path),
    ensures
        holder_from(keys, path, from) == Some(j),
    decreases j - from,
{
    if from < j {
        assert(!holds(keys[from], path));
        lemma_first_holder(keys, path, from + 1, j);
    }
}

/// A call is allowed where there is no project, where no path of it lies in a mirror, and where no
/// command would accept the project's table.
pub proof fn what_is_no_write_into_a_mirror_is_allowed(
    project: Option<Project>,
    targets: Seq<Target>,
)
    requires
        project matches Some(p) ==> (geometry_fault(
            mounts_of(p.config.mounts@),
            p.places@,
            p.place,
            false,
        ) is Some || forall|a: int, b: int|
            0 <= a < targets.len() && 0 <= b < p.places@.len() ==> !strs(
                (#[trigger] p.places@[b]).key@,
            ).is_prefix_of(strs((#[trigger] targets[a]).key@))),
    ensures
        decided(project, targets) is Allow,
{
    if let Some(p) = project {
        let keys = keys_of(p.places@);
        let paths = target_keys(targets);
        lemma_hit(keys, paths, 0);
        if let Some(h) = hit_from(keys, paths, 0) {
            lemma_prefix_either_way(keys[h.1], paths[h.0]);
            assert(strs(p.places@[h.1].key@).is_prefix_of(strs(targets[h.0].key@)));
        }
    }
}

/// A link to a rooted path leads there; any other leads on from the directory that the link lies
/// in.
pub proof fn a_link_leads_from_its_directory(
    dir: Seq<ComponentVal>,
    name: ComponentVal,
    next: Seq<ComponentVal>,
)
    requires
        !(name is Root),
    ensures
        next.len() > 0 && next[0] is Root ==> led_to(dir.push(name), next) == next,
        next.len() == 0 || !(next[0] is Root) ==> led_to(dir.push(name), next) == dir + next,
{
    assert(dir.push(name).drop_last() =~= dir);
}

/// The directory that a call names governs, whatever the directory of the process.
pub proof fn the_directory_of_the_call_governs(
    payload: JsonVal,
    cwd: Seq<char>,
    here: Option<Seq<char>>,
)
    ensures
        member(payload, "cwd"@) == Some(JsonVal::Text(cwd)) ==> governing(payload, here) == cwd,
        member(payload, "cwd"@) is None && here is Some ==> governing(payload, here) == here->0,
        member(payload, "cwd"@) is None && here is None ==> governing(payload, here) == "."@,
{
}

/// What an agent is told of a refusal is a decision to deny, with the reason.
pub proof fn a_refusal_denies_with_its_reason(reason: Seq<char>)
    ensures
        member_opt(
            member(denial(reason), "hookSpecificOutput"@),
            "permissionDecision"@,
        ) == Some(JsonVal::Text("deny"@)),
        member_opt(
            member(denial(reason), "hookSpecificOutput"@),
            "permissionDecisionReason"@,
        ) == Some(JsonVal::Text(reason)),
        member_opt(member(denial(reason), "hookSpecificOutput"@), "hookEventName"@) == Some(
            JsonVal::Text("PreToolUse"@),
        ),
{
    reveal_strlit("hookEventName");
    reveal_strlit("permissionDecision");
    reveal_strlit("permissionDecisionReason");
    let outer = denial(reason)->Object_0;
    let m = outer[0].1->Object_0;
    assert("hookEventName"@.len() == 13 && "permissionDecision"@.len() == 18
        && "permissionDecisionReason"@.len() == 24);
    crate::json::a_member_is_found_by_its_name(outer, 0, "hookSpecificOutput"@);
    crate::json::a_member_is_found_by_its_name(m, 0, "hookEventName"@);
    crate::json::a_member_is_found_by_its_name(m, 1, "permissionDecision"@);
    crate::json::a_member_is_found_by_its_name(m, 2, "permissionDecisionReason"@);
}

} // verus!
