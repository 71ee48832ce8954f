//! From a server path to the local path that mirrors it.

use vstd::prelude::*;

use crate::text::after_prefix;
use crate::text::byte_len;
use crate::text::cat2;
use crate::text::cat3;
use crate::text::chars_of;
use crate::text::debug_of;
use crate::text::debug_text;
use crate::text::eq_ignore_ascii_case;
use crate::text::same;
use crate::text::same_ascii;
use crate::text::split;
use crate::text::split_of;
use crate::text::strs;
use crate::text::utf8_len;

verus! {

/// How a filesystem spells names.
#[derive(Debug, Clone, Copy, PartialEq, Eq)]
pub struct FsRules {
    pub fold_case_insensitive: bool,
    /// Names follow the Windows rules.
    pub win_names: bool,
    pub max_component_bytes: usize,
}

/// Why a delivered path cannot be materialized.
#[derive(Debug, PartialEq, Eq)]
pub enum ProjectError {
    /// A component is longer than the filesystem allows.
    ComponentTooLong { component: String },
}

/// How a component that is too long is told.
pub open spec fn too_long_text(component: Seq<char>) -> Seq<char> {
    "ComponentTooLong { component: "@ + debug_text(component) + " }"@
}

impl ProjectError {
    /// The error as a text.
    pub fn message(&self) -> (r: String)
        ensures
            (match self {
                ProjectError::ComponentTooLong { component } => r@ == too_long_text(component@),
            }),
    {
        match self {
            ProjectError::ComponentTooLong { component } => {
                let d = debug_of(component.as_str());
                cat3("ComponentTooLong { component: ", d.as_str(), " }")
            },
        }
    }
}

/// The path inside a mount of a server path: `None` where it is outside the mount's scope, empty
/// for the scope folder itself.
pub open spec fn in_scope(path: Seq<char>, scope: Option<Seq<char>>) -> Option<Seq<char>> {
    match scope {
        None => Some(path),
        Some(folder) => if path == folder {
            Some(Seq::empty())
        } else {
            after_prefix(path, folder + seq!['/'])
        },
    }
}

/// Strip a mount's folder scope off a server path.
pub fn scope_relative<'a>(server_path: &'a str, scope: Option<&str>) -> (r: Option<&'a str>)
    ensures
        crate::text::opt_ref(r) == in_scope(server_path@, crate::text::opt_ref(scope)),
{
    match scope {
        None => Some(server_path),
        Some(folder) => {
            let n: usize = server_path.unicode_len();
            if same(server_path, folder) {
                return Some(server_path.substring_char(n, n));
            }
            let prefix = cat2(folder, "/");
            proof {
                reveal_strlit("/");
                assert("/"@ =~= seq!['/']);
            }
            let v = chars_of(server_path);
            let p = chars_of(prefix.as_str());
            if crate::text::stands_at(&v, &p, 0) {
                Some(server_path.substring_char(p.len(), n))
            } else {
                None
            }
        },
    }
}

/// What lies in a scope lies under its folder: the inverse of stripping puts the folder back.
pub proof fn scope_stripping_inverts(path: Seq<char>, folder: Seq<char>)
    requires
        in_scope(path, Some(folder)) is Some,
    ensures
        in_scope(path, Some(folder))->0.len() == 0 && path != folder ==> path == folder + seq!['/'],
        in_scope(path, Some(folder))->0.len() > 0 ==> path == folder + seq!['/'] + in_scope(
            path,
            Some(folder),
        )->0,
{
    if path != folder {
        let pre = folder + seq!['/'];
        assert(path =~= pre + path.subrange(pre.len() as int, path.len() as int));
    }
}

/// The number of UTF-16 code units of a text.
pub open spec fn utf16_len(s: Seq<char>) -> nat
    decreases s.len(),
{
    if s.len() == 0 {
        0
    } else {
        utf16_len(s.drop_last()) + if (s.last() as u32) < 0x10000 {
            1nat
        } else {
            2nat
        }
    }
}

proof fn lemma_utf16_first(s: Seq<char>)
    requires
        s.len() > 0,
    ensures
        utf16_len(s) == utf16_len(s.take(1)) + utf16_len(s.drop_first()),
    decreases s.len(),
{
    if s.len() == 1 {
        assert(s.take(1) =~= s);
    } else {
        lemma_utf16_first(s.drop_last());
        assert(s.drop_last().take(1) =~= s.take(1));
        assert(s.drop_last().drop_first() =~= s.drop_first().drop_last());
    }
}

/// A text has no more UTF-16 code units than bytes.
proof fn lemma_utf16_within_utf8(s: Seq<char>)
    ensures
        utf16_len(s) <= utf8_len(s),
    decreases s.len(),
{
    if s.len() > 0 {
        lemma_utf16_first(s);
        lemma_utf16_within_utf8(s.drop_first());
        assert(s.take(1).drop_last() =~= Seq::empty());
        assert(utf16_len(Seq::<char>::empty()) == 0);
        assert(utf16_len(s.take(1)) <= vstd::utf8::encode_scalar(s[0] as u32).len());
    }
}

/// The length of a component in the unit that the filesystem measures it in.
pub open spec fn units_of(component: Seq<char>, rules: FsRules) -> nat {
    if rules.win_names {
        utf16_len(component)
    } else {
        utf8_len(component)
    }
}

/// The length of a component: UTF-16 code units where Windows names rule, bytes elsewhere.
pub fn component_units(component: &str, rules: &FsRules) -> (r: usize)
    ensures
        r == units_of(component@, *rules),
{
    let bytes: usize = byte_len(component);
    if !rules.win_names {
        return bytes;
    }
    let v = chars_of(component);
    proof {
        lemma_utf16_within_utf8(v@);
    }
    let mut n: usize = 0;
    for i in 0..v.len()
        invariant
            v@ == component@,
            utf16_len(v@) <= bytes,
            n == utf16_len(v@.take(i as int)),
    {
        assert(v@.take(i + 1).drop_last() =~= v@.take(i as int));
        proof {
            lemma_utf16_grows(v@, i + 1);
        }
        let u: u32 = v[i] as u32;
        if u < 0x10000 {
            n += 1;
        } else {
            n += 2;
        }
    }
    assert(v@.take(v@.len() as int) =~= v@);
    n
}

proof fn lemma_utf16_grows(s: Seq<char>, k: int)
    requires
        0 <= k <= s.len(),
    ensures
        utf16_len(s.take(k)) <= utf16_len(s),
    decreases s.len() - k,
{
    if k < s.len() {
        assert(s.take(k + 1).drop_last() =~= s.take(k));
        lemma_utf16_grows(s, k + 1);
    } else {
        assert(s.take(k) =~= s);
    }
}

/// The first component that is longer than the filesystem allows.
pub open spec fn too_long_in(parts: Seq<Seq<char>>, rules: FsRules) -> Option<Seq<char>>
    decreases parts.len(),
{
    if parts.len() == 0 {
        None
    } else if units_of(parts[0], rules) > rules.max_component_bytes {
        Some(parts[0])
    } else {
        too_long_in(parts.drop_first(), rules)
    }
}

/// The local spelling of a path inside a mount: the encoded one where Windows names rule, the
/// path itself elsewhere.
pub open spec fn spelled(rel: Seq<char>, encoded: Seq<char>, rules: FsRules) -> Seq<char> {
    if rules.win_names {
        encoded
    } else {
        rel
    }
}

/// The first component of a path that is longer than the filesystem allows.
pub open spec fn oversized(path: Seq<char>, rules: FsRules) -> Option<Seq<char>> {
    too_long_in(split_of(path, '/'), rules)
}

/// The local spelling of a path inside a mount, where every component of it fits. `encoded` is
/// the spelling of `rel` under the Windows rules on names.
pub fn project(rel: &str, encoded: &str, rules: &FsRules) -> (r: Result<String, ProjectError>)
    ensures
        match r {
            Ok(local) => {
                &&& local@ == spelled(rel@, encoded@, *rules)
                &&& oversized(local@, *rules) is None
            },
            Err(ProjectError::ComponentTooLong { component }) => oversized(
                spelled(rel@, encoded@, *rules),
                *rules,
            ) == Some(component@),
        },
{
    let local: &str = if rules.win_names {
        encoded
    } else {
        rel
    };
    let parts = split(local, '/');
    let ghost all = strs(parts@);
    assert(all.skip(0) =~= all);
    for i in 0..parts.len()
        invariant
            all == strs(parts@),
            all == split_of(local@, '/'),
            local@ == spelled(rel@, encoded@, *rules),
            too_long_in(all, *rules) == too_long_in(all.skip(i as int), *rules),
    {
        assert(all.skip(i as int)[0] == parts@[i as int]@);
        assert(all.skip(i as int).drop_first() =~= all.skip(i + 1));
        if component_units(parts[i].as_str(), rules) > rules.max_component_bytes {
            return Err(ProjectError::ComponentTooLong { component: parts[i].clone() });
        }
    }
    Ok(local.to_owned())
}

/// The segment ends in `.docli`, in any ASCII case.
pub open spec fn ends_in_docli(seg: Seq<char>) -> bool {
    seg.len() >= 6 && same_ascii(seg.subrange(seg.len() - 6, seg.len() as int), ".docli"@)
}

/// Some segment of the path ends in `.docli`.
pub open spec fn docli_segment(path: Seq<char>) -> bool {
    exists|i: int|
        0 <= i < split_of(path, '/').len() && ends_in_docli(#[trigger] split_of(path, '/')[i])
}

/// Does any segment of a server path end in `.docli`? Not only the last one: a child of such a
/// folder would bring the folder with it.
pub fn in_docli_namespace(server_path: &str) -> (r: bool)
    ensures
        r == docli_segment(server_path@),
{
    let segs = split(server_path, '/');
    let mark = chars_of(".docli");
    for i in 0..segs.len()
        invariant
            strs(segs@) == split_of(server_path@, '/'),
            mark@ == ".docli"@,
            forall|j: int| 0 <= j < i ==> !ends_in_docli(#[trigger] split_of(server_path@, '/')[j]),
    {
        assert(split_of(server_path@, '/')[i as int] == segs@[i as int]@);
        let v = chars_of(segs[i].as_str());
        let n: usize = v.len();
        if n >= 6 && eq_ignore_ascii_case(vstd::slice::slice_subrange(&v, n - 6, n), &mark) {
            assert(ends_in_docli(split_of(server_path@, '/')[i as int]));
            return true;
        }
    }
    false
}

/// One of the names that a mirror never grows.
pub open spec fn is_reserved(seg: Seq<char>) -> bool {
    same_ascii(seg, ".obsidian"@) || same_ascii(seg, ".trash"@) || same_ascii(seg, ".git"@)
}

/// Some segment of the path is reserved.
pub open spec fn reserved_segment(path: Seq<char>) -> bool {
    exists|i: int|
        0 <= i < split_of(path, '/').len() && is_reserved(#[trigger] split_of(path, '/')[i])
}

/// Is any segment of a server path `.obsidian`, `.trash` or `.git`, in any ASCII case?
pub fn has_reserved_segment(server_path: &str) -> (r: bool)
    ensures
        r == reserved_segment(server_path@),
{
    let segs = split(server_path, '/');
    let a = chars_of(".obsidian");
    let b = chars_of(".trash");
    let c = chars_of(".git");
    for i in 0..segs.len()
        invariant
            strs(segs@) == split_of(server_path@, '/'),
            a@ == ".obsidian"@,
            b@ == ".trash"@,
            c@ == ".git"@,
            forall|j: int| 0 <= j < i ==> !is_reserved(#[trigger] split_of(server_path@, '/')[j]),
    {
        assert(split_of(server_path@, '/')[i as int] == segs@[i as int]@);
        let v = chars_of(segs[i].as_str());
        if eq_ignore_ascii_case(&v, &a) || eq_ignore_ascii_case(&v, &b) || eq_ignore_ascii_case(
            &v,
            &c,
        ) {
            assert(is_reserved(split_of(server_path@, '/')[i as int]));
            return true;
        }
    }
    false
}

/// Every character counts once in the units of a Windows name, and twice where it lies beyond the
/// first plane; elsewhere a name is as long as its bytes.
pub proof fn a_name_is_measured_in_the_units_of_its_filesystem(
    component: Seq<char>,
    c: char,
    rules: FsRules,
)
    ensures
        rules.win_names ==> units_of(component.push(c), rules) == units_of(component, rules) + (
        if (c as u32) < 0x10000 {
            1int
        } else {
            2int
        }),
        rules.win_names ==> units_of(Seq::empty(), rules) == 0,
        !rules.win_names ==> units_of(component, rules) == vstd::utf8::encode_utf8(component).len(),
{
    assert(component.push(c).drop_last() =~= component);
}

/// What stands in a folder is in its scope under its path there, the folder itself is in it under an
/// empty path, and what does not begin with the folder and a slash is out of it.
pub proof fn what_stands_in_a_folder_is_in_its_scope(
    path: Seq<char>,
    folder: Seq<char>,
    rest: Seq<char>,
)
    ensures
        in_scope(folder + seq!['/'] + rest, Some(folder)) == Some(rest),
        in_scope(folder, Some(folder)) == Some(Seq::<char>::empty()),
        path != folder && !(folder + seq!['/']).is_prefix_of(path) ==> in_scope(path, Some(folder))
            is None,
        in_scope(path, None) == Some(path),
{
    let pre = folder + seq!['/'];
    let whole = pre + rest;
    assert(whole.len() != folder.len());
    assert(whole.subrange(0, pre.len() as int) =~= pre);
    assert(whole.subrange(pre.len() as int, whole.len() as int) =~= rest);
    if after_prefix(path, pre) is Some {
        assert(path.subrange(0, pre.len() as int) =~= pre);
    }
}

} // verus!
