//! `docli list`: every workspace that the account can reach, and which of them this project
//! mirrors.

use vstd::prelude::*;

use crate::config::mounts_of;
use crate::config::DocliToml;
use crate::config::Mount;
use crate::config::MountVal;
use crate::http::WorkspaceInfo;
use crate::http::WorkspaceVal;
use crate::ids::id_text;
use crate::ids::print_id;
use crate::report::notices;
use crate::report::spans;
use crate::report::Notice;
use crate::report::NoticeVal;
use crate::report::Span;
use crate::report::SpanVal;
use crate::text::cat2;
use crate::text::cat3;
use crate::text::cat4;
use crate::text::cat5;
use crate::text::clone_opt;
use crate::text::decimal;
use crate::text::decimal_of;
use crate::text::opt_str;
use crate::text::pad_end;
use crate::text::padded;
use crate::text::same;
use crate::text::trim_end_char;
use crate::text::trim_end_char_of;

verus! {

/// A workspace of the list.
#[derive(Debug)]
pub struct Row {
    pub id: String,
    pub handle: String,
    pub name: String,
    /// It is mounted in this project.
    pub mounted: bool,
    /// Where, but only where the user chose the directory. A directory of our own is nobody's
    /// address.
    pub mounted_at: Option<String>,
    pub folder: Option<String>,
}

/// What a [`Row`] says.
pub struct RowVal {
    pub id: Seq<char>,
    pub handle: Seq<char>,
    pub name: Seq<char>,
    pub mounted: bool,
    pub mounted_at: Option<Seq<char>>,
    pub folder: Option<Seq<char>>,
}

impl Row {
    pub open spec fn view(&self) -> RowVal {
        RowVal {
            id: self.id@,
            handle: self.handle@,
            name: self.name@,
            mounted: self.mounted,
            mounted_at: opt_str(self.mounted_at),
            folder: opt_str(self.folder),
        }
    }
}

pub open spec fn rows_of(v: Seq<Row>) -> Seq<RowVal> {
    Seq::new(v.len(), |i: int| v[i].view())
}

/// The first mount of a workspace.
pub open spec fn mount_of(mounts: Seq<MountVal>, id: u128, from: int) -> Option<MountVal>
    decreases mounts.len() - from,
{
    if from < 0 || from >= mounts.len() {
        None
    } else if mounts[from].workspace == id {
        Some(mounts[from])
    } else {
        mount_of(mounts, id, from + 1)
    }
}

/// The mounts that count: those of a project that belongs to the server which was asked. Another
/// server may have the same ids.
pub open spec fn mounts_here(project: Option<DocliToml>, server: Seq<char>) -> Seq<MountVal> {
    match project {
        Some(c) => if trim_end_char_of(c.server@, '/') == server {
            mounts_of(c.mounts@)
        } else {
            Seq::empty()
        },
        None => Seq::empty(),
    }
}

/// The row of a workspace.
pub open spec fn row_of(w: WorkspaceVal, mounts: Seq<MountVal>) -> RowVal {
    let mount = mount_of(mounts, w.id, 0);
    RowVal {
        id: id_text(w.id),
        handle: w.handle,
        name: w.name,
        mounted: mount is Some,
        mounted_at: match mount {
            Some(m) => if m.derived_dir {
                None
            } else {
                Some(m.dir)
            },
            None => None,
        },
        folder: match mount {
            Some(m) => m.folder,
            None => None,
        },
    }
}

fn find_mount<'a>(mounts: &'a Vec<Mount>, id: u128) -> (r: Option<&'a Mount>)
    ensures
        match r {
            Some(m) => mount_of(mounts_of(mounts@), id, 0) == Some(m.view()),
            None => mount_of(mounts_of(mounts@), id, 0) is None,
        },
{
    let ghost ms = mounts_of(mounts@);
    for i in 0..mounts.len()
        invariant
            ms == mounts_of(mounts@),
            mount_of(ms, id, 0) == mount_of(ms, id, i as int),
    {
        assert(ms[i as int] == mounts@[i as int].view());
        if mounts[i].workspace == id {
            return Some(&mounts[i]);
        }
    }
    None
}

/// The rows of the list, in the order in which the server names the workspaces.
pub fn rows(spaces: &Vec<WorkspaceInfo>, project: &Option<DocliToml>, server: &str) -> (r: Vec<
    Row,
>)
    ensures
        rows_of(r@) == Seq::new(
            spaces@.len(),
            |i: int| row_of(spaces@[i].view(), mounts_here(*project, server@)),
        ),
{
    let ghost here = mounts_here(*project, server@);
    let ghost want = Seq::new(spaces@.len(), |i: int| row_of(spaces@[i].view(), here));
    let none: Vec<Mount> = Vec::new();
    let mounts: &Vec<Mount> = match project {
        Some(c) => {
            let own = trim_end_char(c.server.as_str(), '/');
            if same(own.as_str(), server) {
                &c.mounts
            } else {
                &none
            }
        },
        None => &none,
    };
    assert(mounts_of(mounts@) =~= here);
    let mut out: Vec<Row> = Vec::new();
    assert(rows_of(out@) =~= want.take(0));
    for i in 0..spaces.len()
        invariant
            here == mounts_of(mounts@),
            want == Seq::new(spaces@.len(), |i: int| row_of(spaces@[i].view(), here)),
            rows_of(out@) == want.take(i as int),
    {
        let ghost before = rows_of(out@);
        let w = &spaces[i];
        let (mounted, mounted_at, folder) = match find_mount(mounts, w.id) {
            Some(m) => (
                true,
                if m.derived_dir {
                    None
                } else {
                    Some(m.dir.clone())
                },
                clone_opt(&m.folder),
            ),
            None => (false, None, None),
        };
        out.push(
            Row {
                id: print_id(w.id),
                handle: w.handle.clone(),
                name: w.name.clone(),
                mounted,
                mounted_at,
                folder,
            },
        );
        assert(out@.last().view() == want[i as int]);
        assert(rows_of(out@) =~= before.push(want[i as int]));
        assert(rows_of(out@) =~= want.take(i + 1));
    }
    assert(want.take(spaces@.len() as int) =~= want);
    out
}

/// What stands behind a mounted workspace: where it is, if the user chose that, and the folder
/// it is limited to.
pub open spec fn tail_of(row: RowVal, arrow: Seq<char>) -> Option<Seq<char>> {
    let scope = match row.folder {
        Some(f) => " ("@ + f + ")"@,
        None => Seq::empty(),
    };
    if !row.mounted {
        None
    } else {
        match row.mounted_at {
            Some(dir) => Some(arrow + " "@ + dir + scope),
            None => if row.folder is Some {
                Some(arrow + scope)
            } else {
                None
            },
        }
    }
}

/// One line of the list: the mark, the handle in a column `hw` wide, the name in one `nw` wide,
/// the id, and the tail.
pub open spec fn line_of(row: RowVal, hw: nat, nw: nat, arrow: Seq<char>) -> Seq<SpanVal> {
    let handle = padded("@"@ + row.handle, hw);
    let head = if row.mounted {
        seq![SpanVal::Plain("* "@), SpanVal::Bold(handle)]
    } else {
        seq![SpanVal::Plain("  "@), SpanVal::Plain(handle)]
    };
    let middle = seq![SpanVal::Plain("  "@ + padded(row.name, nw) + "  "@), SpanVal::Dim(row.id)];
    let end = match tail_of(row, arrow) {
        Some(t) => seq![SpanVal::Plain("  "@), SpanVal::Dim(t)],
        None => Seq::empty(),
    };
    head + middle + end
}

/// One line of the list. The mark is two characters wide for every row, so that the handles stay
/// in one column.
pub fn row_line(r: &Row, hw: usize, nw: usize, arrow: &str) -> (line: Vec<Span>)
    ensures
        spans(line@) == line_of(r.view(), hw as nat, nw as nat, arrow@),
{
    let at = cat2("@", r.handle.as_str());
    let handle = pad_end(at.as_str(), hw);
    let mut out: Vec<Span> = Vec::new();
    if r.mounted {
        out.push(Span::Plain("* ".to_owned()));
        out.push(Span::Bold(handle));
    } else {
        out.push(Span::Plain("  ".to_owned()));
        out.push(Span::Plain(handle));
    }
    let name = pad_end(r.name.as_str(), nw);
    out.push(Span::Plain(cat3("  ", name.as_str(), "  ")));
    out.push(Span::Dim(r.id.clone()));
    if r.mounted {
        let tail: Option<String> = match (&r.mounted_at, &r.folder) {
            (Some(dir), Some(f)) => {
                let scope = cat3(" (", f.as_str(), ")");
                Some(cat4(arrow, " ", dir.as_str(), scope.as_str()))
            },
            (Some(dir), None) => {
                let t = cat3(arrow, " ", dir.as_str());
                assert(t@ =~= arrow@ + " "@ + dir@ + Seq::empty());
                Some(t)
            },
            (None, Some(f)) => {
                let scope = cat3(" (", f.as_str(), ")");
                Some(cat2(arrow, scope.as_str()))
            },
            (None, None) => None,
        };
        assert(opt_str(tail) == tail_of(r.view(), arrow@));
        if let Some(t) = tail {
            out.push(Span::Plain("  ".to_owned()));
            out.push(Span::Dim(t));
        }
    }
    assert(spans(out@) =~= line_of(r.view(), hw as nat, nw as nat, arrow@));
    out
}

/// A mounted workspace whose directory is our own shows no directory.
pub proof fn a_derived_mount_shows_no_directory(
    w: WorkspaceVal,
    mounts: Seq<MountVal>,
    arrow: Seq<char>,
)
    requires
        mount_of(mounts, w.id, 0) matches Some(m) && m.derived_dir,
    ensures
        row_of(w, mounts).mounted,
        row_of(w, mounts).mounted_at is None,
        tail_of(row_of(w, mounts), arrow) == (match row_of(w, mounts).folder {
            Some(f) => Some(arrow + (" ("@ + f + ")"@)),
            None => None,
        }),
{
}

/// The width of the column of handles, with their at sign, for the first `n` rows.
pub open spec fn handle_width(rows: Seq<RowVal>, n: nat) -> nat
    decreases n,
{
    if n == 0 {
        0
    } else {
        let before = handle_width(rows, (n - 1) as nat);
        let len = rows[n - 1].handle.len() + 1;
        if len > before {
            len
        } else {
            before
        }
    }
}

/// The width of the column of names for the first `n` rows.
pub open spec fn name_width(rows: Seq<RowVal>, n: nat) -> nat
    decreases n,
{
    if n == 0 {
        0
    } else {
        let before = name_width(rows, (n - 1) as nat);
        let len = rows[n - 1].name.len();
        if len > before {
            len
        } else {
            before
        }
    }
}

/// How many of the first `n` rows are mounted.
pub open spec fn mounted_count(rows: Seq<RowVal>, n: nat) -> nat
    decreases n,
{
    if n == 0 {
        0
    } else {
        mounted_count(rows, (n - 1) as nat) + if rows[n - 1].mounted {
            1nat
        } else {
            0nat
        }
    }
}

/// What the list looks like.
pub open spec fn rendered(rows: Seq<RowVal>, arrow: Seq<char>) -> Seq<NoticeVal> {
    let n = rows.len();
    if n == 0 {
        seq![NoticeVal::Warn("This account has no workspaces you can reach."@)]
    } else {
        seq![NoticeVal::Heading("Workspaces"@)] + Seq::new(
            n,
            |i: int|
                NoticeVal::Styled(
                    line_of(rows[i], handle_width(rows, n), name_width(rows, n), arrow),
                ),
        ) + seq![
            if mounted_count(rows, n) == 0 {
                NoticeVal::Next("Nothing is mounted here - set it up: docli init"@)
            } else {
                NoticeVal::Detail(
                    "* - mirrored in this project ("@ + decimal_of(mounted_count(rows, n))
                        + " of "@ + decimal_of(n) + ")"@,
                )
            },
        ]
    }
}

/// What the list looks like, and the exit code: 1 for an account that reaches nothing. A machine
/// gets the rows themselves in place of the lines, with the same exit code. The widths are in
/// characters.
pub fn render(rows: &Vec<Row>, json: bool, arrow: &str) -> (r: (Vec<Notice>, i32))
    ensures
        notices(r.0@) == if json {
            Seq::empty()
        } else {
            rendered(rows_of(rows@), arrow@)
        },
        r.1 == (if rows@.len() == 0 {
            1i32
        } else {
            0i32
        }),
{
    let ghost rs = rows_of(rows@);
    let mut out: Vec<Notice> = Vec::new();
    assert(notices(out@) =~= Seq::empty());
    let total: usize = rows.len();
    if json {
        let code: i32 = if total == 0 {
            1
        } else {
            0
        };
        return (out, code);
    }
    if total == 0 {
        out.push(
            Notice::Warn("This account has no workspaces you can reach.".to_owned()),
        );
        assert(notices(out@) =~= rendered(rs, arrow@));
        return (out, 1);
    }
    let mut hw: usize = 0;
    let mut nw: usize = 0;
    let mut mounted: usize = 0;
    for i in 0..total
        invariant
            total == rows@.len(),
            rs == rows_of(rows@),
            hw == handle_width(rs, i as nat),
            nw == name_width(rs, i as nat),
            mounted == mounted_count(rs, i as nat),
            mounted <= i,
    {
        assert(rs[i as int] == rows@[i as int].view());
        let at = cat2("@", rows[i].handle.as_str());
        proof {
            reveal_strlit("@");
        }
        let h: usize = at.as_str().unicode_len();
        if h > hw {
            hw = h;
        }
        let n: usize = rows[i].name.as_str().unicode_len();
        if n > nw {
            nw = n;
        }
        if rows[i].mounted {
            mounted += 1;
        }
    }
    let ghost lines = Seq::new(
        rs.len(),
        |i: int| NoticeVal::Styled(line_of(rs[i], hw as nat, nw as nat, arrow@)),
    );
    out.push(Notice::Heading("Workspaces".to_owned()));
    let ghost head = notices(out@);
    assert(head =~= seq![NoticeVal::Heading("Workspaces"@)]);
    assert(notices(out@) =~= head + lines.take(0));
    for i in 0..total
        invariant
            total == rows@.len(),
            rs == rows_of(rows@),
            lines == Seq::new(
                rs.len(),
                |i: int| NoticeVal::Styled(line_of(rs[i], hw as nat, nw as nat, arrow@)),
            ),
            notices(out@) == head + lines.take(i as int),
    {
        let ghost done = notices(out@);
        assert(rs[i as int] == rows@[i as int].view());
        out.push(Notice::Styled(row_line(&rows[i], hw, nw, arrow)));
        assert(out@.last().view() == lines[i as int]);
        assert(lines.take(i + 1) =~= lines.take(i as int).push(lines[i as int]));
        assert(notices(out@) =~= done.push(lines[i as int]));
        assert(notices(out@) =~= head + lines.take(i + 1));
    }
    assert(lines.take(total as int) =~= lines);
    if mounted == 0 {
        out.push(Notice::Next("Nothing is mounted here - set it up: docli init".to_owned()));
    } else {
        let a = decimal(mounted as u64);
        let b = decimal(total as u64);
        out.push(
            Notice::Detail(
                cat5("* - mirrored in this project (", a.as_str(), " of ", b.as_str(), ")"),
            ),
        );
    }
    assert(notices(out@) =~= rendered(rs, arrow@));
    (out, 0)
}

} // verus!
