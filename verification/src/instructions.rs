//! The instruction files: a delimited section in `AGENTS.md`, and a file that imports it for the
//! one agent that does not read `AGENTS.md`.
//!
//! The section is replaced in place and nothing outside it is touched. A file of that agent's
//! own is never edited: the line to add is printed instead.

use vstd::prelude::*;

use crate::agents::Vendor;
use crate::hooks::ConfigRead;
use crate::jsontext::newline_ended;
use crate::jsontext::splice;
use crate::jsontext::splice_of;
use crate::report::notices;
use crate::report::Notice;
use crate::report::NoticeVal;
use crate::text::begins;
use crate::text::cat2;
use crate::text::cat3;
use crate::text::cat4;
use crate::text::cat5;
use crate::text::chars_of;
use crate::text::contains;
use crate::text::find_in;
use crate::text::find_sub;
use crate::text::has_sub;
use crate::text::occurs_at;
use crate::text::opt_ref;
use crate::text::same;
use crate::text::strs;
use crate::text::trim;
use crate::text::trim_end;
use crate::text::trim_end_of;
use crate::text::trim_of;

verus! {

/// What the section says.
pub const AGENTS_FRAGMENT: &'static str = "## docli mirror

This project mirrors docli notes. The mirror is read-only: an edit of a mirror file is never synced, and the next sync may overwrite it.

- To change a note, use the docli MCP connection (`edit_note`), not the file.
- Run `docli sync --check` before you rely on the mirror, and `docli sync` to bring it up to date.
- A note that is not in the mirror may still exist on the server; search the server before you say that it does not.
";

pub const BEGIN: &'static str = "<!-- docli:begin -->";

pub const END: &'static str = "<!-- docli:end -->";

/// The line that imports `AGENTS.md`.
pub const CLAUDE_IMPORT: &'static str = "@AGENTS.md";

/// The section with its markers, as it is written.
pub open spec fn block_text() -> Seq<char> {
    BEGIN@ + "\n"@ + trim_end_of(AGENTS_FRAGMENT@) + "\n"@ + END@ + "\n"@
}

pub fn block() -> (r: String)
    ensures
        r@ == block_text(),
{
    let f = trim_end(AGENTS_FRAGMENT);
    let head = cat5(BEGIN, "\n", f.as_str(), "\n", END);
    cat2(head.as_str(), "\n")
}

/// What is to be done about `AGENTS.md`.
#[derive(Debug, PartialEq, Eq)]
pub enum AgentsMd {
    /// Write this text.
    Write(String),
    /// The section is there and current.
    Current,
    /// The file speaks of docli in somebody else's words.
    HandWritten,
}

/// What an [`AgentsMd`] says.
pub enum AgentsMdVal {
    Write(Seq<char>),
    Current,
    HandWritten,
}

impl AgentsMd {
    pub open spec fn view(&self) -> AgentsMdVal {
        match self {
            AgentsMd::Write(s) => AgentsMdVal::Write(s@),
            AgentsMd::Current => AgentsMdVal::Current,
            AgentsMd::HandWritten => AgentsMdVal::HandWritten,
        }
    }
}

/// Where the section stands: from its first marker up to the end of its last.
pub open spec fn section_of(text: Seq<char>) -> Option<(int, int)> {
    match (find_sub(text, BEGIN@), find_sub(text, END@)) {
        (Some(start), Some(end)) => if end > start {
            Some((start, end + END@.len()))
        } else {
            None
        },
        _ => None,
    }
}

/// The text with the section behind it, after a blank line where there is something before it.
pub open spec fn appended(text: Seq<char>) -> Seq<char> {
    let out = newline_ended(text);
    if trim_of(out).len() > 0 {
        out + "\n"@ + block_text()
    } else {
        out + block_text()
    }
}

/// What is to be done about a file.
pub open spec fn merged_val(existing: Option<Seq<char>>) -> AgentsMdVal {
    match existing {
        None => AgentsMdVal::Write(block_text()),
        Some(text) => match section_of(text) {
            Some(at) => {
                let rebuilt = splice_of(text, at.0, at.1, trim_end_of(block_text()));
                if rebuilt == text {
                    AgentsMdVal::Current
                } else {
                    AgentsMdVal::Write(rebuilt)
                }
            },
            None => if has_sub(text, "docli"@) {
                AgentsMdVal::HandWritten
            } else {
                AgentsMdVal::Write(appended(text))
            },
        },
    }
}

fn find_section(v: &Vec<char>) -> (r: Option<(usize, usize)>)
    ensures
        (match r {
            Some(p) => Some((p.0 as int, p.1 as int)),
            None => None,
        }) == section_of(v@),
        r matches Some(p) ==> p.0 <= p.1 <= v@.len(),
{
    let b = chars_of(BEGIN);
    let e = chars_of(END);
    let start: usize = match find_in(v, &b) {
        Some(i) => i,
        None => {
            return None;
        },
    };
    match find_in(v, &e) {
        Some(end) => {
            if end > start {
                proof {
                    crate::text::lemma_found_is_first(v@, END@);
                }
                let n: usize = v.len();
                assert(end + e@.len() <= n);
                Some((start, end + e.len()))
            } else {
                None
            }
        },
        None => None,
    }
}

/// Decide what becomes of `AGENTS.md`: the section is replaced where it stands, or goes to the
/// end of a file that does not mention docli yet.
pub fn merged_agents_md(existing: Option<&str>) -> (r: AgentsMd)
    ensures
        r.view() == merged_val(opt_ref(existing)),
{
    let fresh = block();
    let text: &str = match existing {
        None => {
            return AgentsMd::Write(fresh);
        },
        Some(t) => t,
    };
    let v = chars_of(text);
    if let Some(at) = find_section(&v) {
        let body = trim_end(fresh.as_str());
        let rebuilt = splice(&v, at.0, at.1, body.as_str());
        return if same(rebuilt.as_str(), text) {
            AgentsMd::Current
        } else {
            AgentsMd::Write(rebuilt)
        };
    }
    if contains(text, "docli") {
        return AgentsMd::HandWritten;
    }
    let mut out = text.to_owned();
    crate::jsontext::ensure_trailing_newline(&mut out);
    let inked = trim(out.as_str());
    if !inked.as_str().is_empty() {
        out.push_str("\n");
    }
    out.push_str(fresh.as_str());
    AgentsMd::Write(out)
}

/// Whatever stands outside the section stays: a section is replaced where it stands, and a file
/// without one keeps its text in front.
pub proof fn text_outside_the_section_stays(text: Seq<char>, out: Seq<char>)
    requires
        merged_val(Some(text)) == AgentsMdVal::Write(out),
    ensures
        match section_of(text) {
            Some(at) => 0 <= at.0 <= at.1 <= text.len() && out.subrange(0, at.0) == text.subrange(
                0,
                at.0,
            ) && out.subrange(
                at.0 + trim_end_of(block_text()).len(),
                out.len() as int,
            ) == text.subrange(at.1, text.len() as int),
            None => begins(out, text),
        },
{
    match section_of(text) {
        Some(at) => {
            crate::text::lemma_found_is_first(text, BEGIN@);
            crate::text::lemma_found_is_first(text, END@);
            crate::jsontext::splice_keeps_the_rest(text, at.0, at.1, trim_end_of(block_text()));
        },
        None => {
            assert(out.subrange(0, text.len() as int) =~= text);
        },
    }
}

/// No `c` stands in `s` from `i` on.
spec fn lacks_from(s: Seq<char>, c: char, i: int) -> bool
    decreases s.len() - i,
{
    i >= s.len() || (s[i] != c && lacks_from(s, c, i + 1))
}

proof fn lemma_lacks(s: Seq<char>, c: char, i: int)
    requires
        lacks_from(s, c, i),
    ensures
        forall|j: int| i <= j < s.len() ==> #[trigger] s[j] != c,
    decreases s.len() - i,
{
    if i < s.len() {
        lemma_lacks(s, c, i + 1);
    }
}

proof fn lemma_trimmed_is_front(s: Seq<char>)
    ensures
        trim_end_of(s).len() <= s.len(),
        trim_end_of(s) == s.subrange(0, trim_end_of(s).len() as int),
    decreases s.len(),
{
    if s.len() > 0 && crate::text::is_white(s.last()) {
        lemma_trimmed_is_front(s.drop_last());
        let n = trim_end_of(s).len() as int;
        assert(s.drop_last().subrange(0, n) =~= s.subrange(0, n));
    } else {
        assert(s.subrange(0, s.len() as int) =~= s);
    }
}

/// What stands between the markers.
spec fn between() -> Seq<char> {
    "\n"@ + trim_end_of(AGENTS_FRAGMENT@) + "\n"@
}

proof fn lemma_between_is_unmarked()
    ensures
        forall|j: int| 0 <= j < between().len() ==> #[trigger] between()[j] != '<',
{
    reveal_strlit("\n");
    reveal_strlit(
        "## docli mirror

This project mirrors docli notes. The mirror is read-only: an edit of a mirror file is never synced, and the next sync may overwrite it.

- To change a note, use the docli MCP connection (`edit_note`), not the file.
- Run `docli sync --check` before you rely on the mirror, and `docli sync` to bring it up to date.
- A note that is not in the mirror may still exist on the server; search the server before you say that it does not.
",
    );
    let f = AGENTS_FRAGMENT@;
    reveal_with_fuel(lacks_from, 32);
    assert(lacks_from(f, '<', 420));
    assert(lacks_from(f, '<', 390));
    assert(lacks_from(f, '<', 360));
    assert(lacks_from(f, '<', 330));
    assert(lacks_from(f, '<', 300));
    assert(lacks_from(f, '<', 270));
    assert(lacks_from(f, '<', 240));
    assert(lacks_from(f, '<', 210));
    assert(lacks_from(f, '<', 180));
    assert(lacks_from(f, '<', 150));
    assert(lacks_from(f, '<', 120));
    assert(lacks_from(f, '<', 90));
    assert(lacks_from(f, '<', 60));
    assert(lacks_from(f, '<', 30));
    assert(lacks_from(f, '<', 0));
    lemma_lacks(f, '<', 0);
    lemma_trimmed_is_front(f);
}

/// A text that begins with `<` and has no other.
spec fn is_mark(pat: Seq<char>) -> bool {
    &&& pat.len() > 0
    &&& pat[0] == '<'
    &&& forall|k: int| 0 < k < pat.len() ==> #[trigger] pat[k] != '<'
}

proof fn lemma_marks()
    ensures
        is_mark(BEGIN@),
        is_mark(END@),
        BEGIN@.len() == 20,
        END@.len() == 18,
        BEGIN@[11] == 'b',
        END@[11] == 'e',
        BEGIN@[19] == '>',
        END@[17] == '>',
        BEGIN@.subrange(5, 10) == "docli"@,
        END@.subrange(5, 10) == "docli"@,
{
    reveal_strlit("<!-- docli:begin -->");
    reveal_strlit("<!-- docli:end -->");
    reveal_strlit("docli");
    assert(lacks_from(BEGIN@, '<', 1) && lacks_from(END@, '<', 1)) by {
        reveal_with_fuel(lacks_from, 22);
    }
    lemma_lacks(BEGIN@, '<', 1);
    lemma_lacks(END@, '<', 1);
    assert(BEGIN@.subrange(5, 10) =~= "docli"@);
    assert(END@.subrange(5, 10) =~= "docli"@);
}

/// The section without the newline at its end.
proof fn lemma_body()
    ensures
        trim_end_of(block_text()) == BEGIN@ + between() + END@,
        block_text() == trim_end_of(block_text()) + "\n"@,
{
    lemma_marks();
    reveal_strlit("\n");
    let body = BEGIN@ + between() + END@;
    assert(block_text() =~= body.push('\n'));
    assert(block_text().drop_last() =~= body);
    assert(body.last() == '>');
    reveal_with_fuel(trim_end_of, 2);
    assert(block_text() =~= body + "\n"@);
}

/// A mark does not stand across a place where another `<` stands.
proof fn lemma_no_straddle(s: Seq<char>, pat: Seq<char>, j: int, k: int)
    requires
        is_mark(pat),
        j < k < j + pat.len(),
        0 <= k < s.len(),
        s[k] == '<',
    ensures
        !occurs_at(s, pat, j),
{
    if occurs_at(s, pat, j) {
        assert(s.subrange(j, j + pat.len())[k - j] == pat[k - j]);
    }
}

/// A mark that does not stand in `before` stands nowhere before the `<` that follows it.
proof fn lemma_none_before(before: Seq<char>, rest: Seq<char>, pat: Seq<char>, j: int)
    requires
        is_mark(pat),
        !has_sub(before, pat),
        rest.len() > 0,
        rest[0] == '<',
        0 <= j < before.len(),
    ensures
        !occurs_at(before + rest, pat, j),
{
    let s = before + rest;
    if occurs_at(s, pat, j) {
        if j + pat.len() <= before.len() {
            assert(before.subrange(j, j + pat.len()) =~= s.subrange(j, j + pat.len()));
            assert(occurs_at(before, pat, j));
        } else {
            lemma_no_straddle(s, pat, j, before.len() as int);
        }
    }
}

/// The section is found where it was put, whatever stands around it.
proof fn lemma_section_is_found(before: Seq<char>, after: Seq<char>)
    requires
        !has_sub(before, BEGIN@),
        !has_sub(before, END@),
    ensures
        section_of(before + trim_end_of(block_text()) + after) == Some(
            (before.len() as int, (before.len() + trim_end_of(block_text()).len()) as int),
        ),
{
    lemma_marks();
    lemma_body();
    lemma_between_is_unmarked();
    let body = trim_end_of(block_text());
    let rest = body + after;
    let s = before + rest;
    let b = before.len() as int;
    let e = b + BEGIN@.len() + between().len();
    assert(s =~= before + body + after);
    assert(s.subrange(b, b + BEGIN@.len()) =~= BEGIN@);
    assert(s.subrange(e, e + END@.len()) =~= END@);
    assert forall|j: int| 0 <= j < b implies !occurs_at(s, BEGIN@, j) by {
        lemma_none_before(before, rest, BEGIN@, j);
    }
    assert forall|j: int| 0 <= j < e implies !occurs_at(s, END@, j) by {
        if j < b {
            lemma_none_before(before, rest, END@, j);
        } else if occurs_at(s, END@, j) {
            assert(s.subrange(j, j + END@.len())[0] == s[j]);
            assert(s.subrange(j, j + END@.len())[11] == s[j + 11]);
            if j == b {
                assert(s[j + 11] == BEGIN@[11]);
            } else if j < b + BEGIN@.len() {
                assert(s[j] == BEGIN@[j - b]);
            } else {
                assert(s[j] == between()[j - b - BEGIN@.len()]);
            }
        }
    }
    crate::text::lemma_first_is_found(s, BEGIN@, b);
    crate::text::lemma_first_is_found(s, END@, e);
}

/// A mark that first stands at `at` does not stand in front of it.
proof fn lemma_none_in_front(text: Seq<char>, pat: Seq<char>, at: int)
    requires
        crate::text::is_first(text, pat, at),
        pat.len() > 0,
    ensures
        forall|k: int| 0 <= k <= at ==> !has_sub(#[trigger] text.subrange(0, k), pat),
{
    assert forall|k: int| 0 <= k <= at implies !has_sub(#[trigger] text.subrange(0, k), pat) by {
        let front = text.subrange(0, k);
        assert forall|j: int| !occurs_at(front, pat, j) by {
            if occurs_at(front, pat, j) {
                assert(front.subrange(j, j + pat.len()) =~= text.subrange(j, j + pat.len()));
                assert(occurs_at(text, pat, j));
            }
        }
    }
}

/// A text without the word has no mark, with newlines behind it neither.
proof fn lemma_no_word_no_mark(text: Seq<char>, more: Seq<char>, pat: Seq<char>)
    requires
        !has_sub(text, "docli"@),
        forall|k: int| 0 <= k < more.len() ==> #[trigger] more[k] == '\n',
        pat == BEGIN@ || pat == END@,
    ensures
        !has_sub(text + more, pat),
{
    lemma_marks();
    reveal_strlit("docli");
    let s = text + more;
    assert forall|j: int| !occurs_at(s, pat, j) by {
        if occurs_at(s, pat, j) {
            let n = pat.len() as int;
            assert(s.subrange(j, j + n)[n - 1] == s[j + n - 1]);
            assert(j + n <= text.len());
            assert(text.subrange(j + 5, j + 10) =~= s.subrange(j, j + n).subrange(5, 10));
            assert(occurs_at(text, "docli"@, j + 5));
        }
    }
}

/// A section that is as it would be written is left alone.
proof fn lemma_kept(before: Seq<char>, after: Seq<char>)
    requires
        !has_sub(before, BEGIN@),
        !has_sub(before, END@),
    ensures
        merged_val(Some(before + trim_end_of(block_text()) + after)) is Current,
{
    lemma_section_is_found(before, after);
    let body = trim_end_of(block_text());
    let text = before + body + after;
    let at = (before.len() as int, (before.len() + body.len()) as int);
    assert(text.subrange(0, at.0) =~= before);
    assert(text.subrange(at.1, text.len() as int) =~= after);
}

proof fn lemma_appended_is_kept(text: Seq<char>)
    requires
        !has_sub(text, "docli"@),
    ensures
        merged_val(Some(appended(text))) is Current,
{
    lemma_body();
    reveal_strlit("\n");
    let start = newline_ended(text);
    let before = if trim_of(start).len() > 0 {
        start + "\n"@
    } else {
        start
    };
    let more = before.skip(text.len() as int);
    assert(before =~= text + more);
    lemma_no_word_no_mark(text, more, BEGIN@);
    lemma_no_word_no_mark(text, more, END@);
    lemma_kept(before, "\n"@);
    assert(appended(text) =~= before + trim_end_of(block_text()) + "\n"@);
}

proof fn lemma_replaced_is_kept(text: Seq<char>, at: (int, int))
    requires
        section_of(text) == Some(at),
    ensures
        merged_val(Some(splice_of(text, at.0, at.1, trim_end_of(block_text())))) is Current,
{
    lemma_marks();
    crate::text::lemma_found_is_first(text, BEGIN@);
    crate::text::lemma_found_is_first(text, END@);
    lemma_none_in_front(text, BEGIN@, at.0);
    lemma_none_in_front(text, END@, find_sub(text, END@)->0);
    lemma_kept(text.subrange(0, at.0), text.subrange(at.1, text.len() as int));
}

/// Running again changes nothing: what was written is current.
pub proof fn merging_again_changes_nothing(existing: Option<Seq<char>>, out: Seq<char>)
    requires
        merged_val(existing) == AgentsMdVal::Write(out),
    ensures
        merged_val(Some(out)) is Current,
{
    match existing {
        None => {
            lemma_marks();
            lemma_body();
            lemma_kept(Seq::empty(), "\n"@);
            assert(out =~= Seq::<char>::empty() + trim_end_of(block_text()) + "\n"@);
        },
        Some(text) => match section_of(text) {
            Some(at) => lemma_replaced_is_kept(text, at),
            None => lemma_appended_is_kept(text),
        },
    }
}

/// What is to be done about `AGENTS.md`, and what is said before it is done.
#[derive(Debug)]
pub enum AgentsStep {
    /// It cannot be read; nothing else is done.
    Stop(Notice),
    /// Write this text; the file was there before.
    Write { body: String, had: bool },
    /// Nothing is written.
    Settled { have_section: bool, notices: Vec<Notice> },
}

/// What a [`AgentsStep`] says.
pub enum AgentsStepVal {
    Stop(NoticeVal),
    Write(Seq<char>, bool),
    Settled(bool, Seq<NoticeVal>),
}

impl AgentsStep {
    pub open spec fn view(&self) -> AgentsStepVal {
        match self {
            AgentsStep::Stop(n) => AgentsStepVal::Stop(n.view()),
            AgentsStep::Write { body, had } => AgentsStepVal::Write(body@, *had),
            AgentsStep::Settled { have_section, notices: said } => AgentsStepVal::Settled(
                *have_section,
                notices(said@),
            ),
        }
    }
}

/// The text of a file that could be read.
pub open spec fn read_text(read: ConfigRead) -> Option<Seq<char>> {
    match read {
        ConfigRead::Text(t) => Some(t@),
        _ => None,
    }
}

pub open spec fn agents_step_of(read: ConfigRead) -> AgentsStepVal {
    match read {
        ConfigRead::Unreadable(why) => AgentsStepVal::Stop(
            NoticeVal::Warn(
                "AGENTS.md could not be read ("@ + why@
                    + ") - add the docli section by hand:\n"@ + block_text(),
            ),
        ),
        _ => match merged_val(read_text(read)) {
            AgentsMdVal::Write(body) => AgentsStepVal::Write(body, read is Text),
            AgentsMdVal::Current => AgentsStepVal::Settled(
                true,
                seq![NoticeVal::Done("AGENTS.md: the docli section is up to date"@)],
            ),
            AgentsMdVal::HandWritten => AgentsStepVal::Settled(
                false,
                seq![
                    NoticeVal::Warn(
                        "AGENTS.md mentions docli already, so no section was added - docli will not write a second description beside a hand-written one. If the file does not actually carry the mirror contract, add it yourself:"@,
                    ),
                    NoticeVal::Detail(block_text()),
                ],
            ),
        },
    }
}

fn text_of<'a>(read: &'a ConfigRead) -> (r: Option<&'a str>)
    ensures
        opt_ref(r) == read_text(*read),
{
    match read {
        ConfigRead::Text(t) => Some(t.as_str()),
        _ => None,
    }
}

/// Decide what is done about `AGENTS.md`.
pub fn install_agents_md(read: &ConfigRead) -> (r: AgentsStep)
    ensures
        r.view() == agents_step_of(*read),
{
    let shown = block();
    if let ConfigRead::Unreadable(why) = read {
        return AgentsStep::Stop(
            Notice::Warn(
                cat4(
                    "AGENTS.md could not be read (",
                    why.as_str(),
                    ") - add the docli section by hand:\n",
                    shown.as_str(),
                ),
            ),
        );
    }
    let had: bool = match read {
        ConfigRead::Text(_) => true,
        _ => false,
    };
    match merged_agents_md(text_of(read)) {
        AgentsMd::Write(body) => AgentsStep::Write { body, had },
        AgentsMd::Current => {
            let mut said: Vec<Notice> = Vec::new();
            said.push(Notice::Done("AGENTS.md: the docli section is up to date".to_owned()));
            assert(notices(said@) =~= seq![
                NoticeVal::Done("AGENTS.md: the docli section is up to date"@),
            ]);
            AgentsStep::Settled { have_section: true, notices: said }
        },
        AgentsMd::HandWritten => {
            let mut said: Vec<Notice> = Vec::new();
            said.push(
                Notice::Warn(
                    "AGENTS.md mentions docli already, so no section was added - docli will not write a second description beside a hand-written one. If the file does not actually carry the mirror contract, add it yourself:".to_owned(),
                ),
            );
            said.push(Notice::Detail(shown));
            assert(notices(said@) =~= seq![
                NoticeVal::Warn(
                    "AGENTS.md mentions docli already, so no section was added - docli will not write a second description beside a hand-written one. If the file does not actually carry the mirror contract, add it yourself:"@,
                ),
                NoticeVal::Detail(block_text()),
            ]);
            AgentsStep::Settled { have_section: false, notices: said }
        },
    }
}

/// What is said once `AGENTS.md` was written, or could not be. A failure is named and ends
/// nothing; with it there is no section.
pub fn agents_md_written(had: bool, failed: Option<&str>) -> (r: (bool, Notice))
    ensures
        r.0 == (failed is None),
        r.1.view() == (match failed {
            None => NoticeVal::Done(
                if had {
                    "AGENTS.md: the docli section is up to date"@
                } else {
                    "wrote AGENTS.md"@
                },
            ),
            Some(why) => NoticeVal::Warn(
                "AGENTS.md could not be written ("@ + why@
                    + ") - add this section by hand:\n"@ + block_text(),
            ),
        }),
{
    match failed {
        None => (
            true,
            Notice::Done(
                if had {
                    "AGENTS.md: the docli section is up to date".to_owned()
                } else {
                    "wrote AGENTS.md".to_owned()
                },
            ),
        ),
        Some(why) => {
            let shown = block();
            (
                false,
                Notice::Warn(
                    cat4(
                        "AGENTS.md could not be written (",
                        why,
                        ") - add this section by hand:\n",
                        shown.as_str(),
                    ),
                ),
            )
        },
    }
}

/// What is to be done about the file that imports `AGENTS.md`.
#[derive(Debug)]
pub enum BridgeStep {
    /// Nothing is written.
    Say(Vec<Notice>),
    /// Create the file with this text, unless it has appeared meanwhile.
    Create(String),
}

/// What a [`BridgeStep`] says.
pub enum BridgeVal {
    Say(Seq<NoticeVal>),
    Create(Seq<char>),
}

impl BridgeStep {
    pub open spec fn view(&self) -> BridgeVal {
        match self {
            BridgeStep::Say(said) => BridgeVal::Say(notices(said@)),
            BridgeStep::Create(s) => BridgeVal::Create(s@),
        }
    }
}

/// An existing file is never edited, and none is created that would import a file without the
/// section.
pub open spec fn bridge_of(vendor: Vendor, exists_already: bool, have_section: bool) -> BridgeVal {
    let file = vendor.instructions@;
    if exists_already {
        BridgeVal::Say(
            seq![
                NoticeVal::Warn(
                    file + " already exists and docli will not edit it - "@ + vendor.name@
                        + " does not read AGENTS.md, so add this line at the top yourself:"@,
                ),
                NoticeVal::Detail(CLAUDE_IMPORT@),
            ],
        )
    } else if !have_section {
        BridgeVal::Say(
            seq![
                NoticeVal::Detail(
                    file
                        + " was not created: it would import an AGENTS.md that does not carry the docli section. Add the section, then add `@AGENTS.md` at the top of a "@
                        + file + "."@,
                ),
            ],
        )
    } else {
        BridgeVal::Create(CLAUDE_IMPORT@ + "\n"@)
    }
}

/// Decide what is done about the file that imports `AGENTS.md`.
pub fn install_bridge(vendor: Vendor, exists_already: bool, have_section: bool) -> (r: BridgeStep)
    ensures
        r.view() == bridge_of(vendor, exists_already, have_section),
{
    let file = vendor.instructions;
    if exists_already {
        let mut said: Vec<Notice> = Vec::new();
        said.push(
            Notice::Warn(
                cat4(
                    file,
                    " already exists and docli will not edit it - ",
                    vendor.name,
                    " does not read AGENTS.md, so add this line at the top yourself:",
                ),
            ),
        );
        said.push(Notice::Detail(CLAUDE_IMPORT.to_owned()));
        assert(notices(said@) =~= bridge_of(vendor, exists_already, have_section)->Say_0);
        return BridgeStep::Say(said);
    }
    if !have_section {
        let mut said: Vec<Notice> = Vec::new();
        said.push(
            Notice::Detail(
                cat4(
                    file,
                    " was not created: it would import an AGENTS.md that does not carry the docli section. Add the section, then add `@AGENTS.md` at the top of a ",
                    file,
                    ".",
                ),
            ),
        );
        assert(notices(said@) =~= bridge_of(vendor, exists_already, have_section)->Say_0);
        return BridgeStep::Say(said);
    }
    BridgeStep::Create(cat2(CLAUDE_IMPORT, "\n"))
}

/// What came of creating the file.
#[derive(Debug)]
pub enum BridgeOutcome {
    Written,
    WriteFailed(String),
    /// It has appeared meanwhile.
    Appeared,
    Failed(String),
}

pub open spec fn bridge_notices(vendor: Vendor, o: BridgeOutcome) -> Seq<NoticeVal> {
    let file = vendor.instructions@;
    match o {
        BridgeOutcome::Written => seq![
            NoticeVal::Done("wrote "@ + file + " (it imports AGENTS.md)"@),
        ],
        BridgeOutcome::WriteFailed(why) => seq![
            NoticeVal::Warn(
                file + " could not be written ("@ + why@ + ") - create it with one line: "@
                    + CLAUDE_IMPORT@,
            ),
        ],
        BridgeOutcome::Appeared => seq![
            NoticeVal::Warn(
                file
                    + " appeared while docli was working and will not be edited - add this line at the top yourself:"@,
            ),
            NoticeVal::Detail(CLAUDE_IMPORT@),
        ],
        BridgeOutcome::Failed(why) => seq![
            NoticeVal::Warn(
                file + " could not be created ("@ + why@ + ") - create it with one line: "@
                    + CLAUDE_IMPORT@,
            ),
        ],
    }
}

/// What is said of what came of it.
pub fn bridge_done(vendor: Vendor, o: &BridgeOutcome) -> (r: Vec<Notice>)
    ensures
        notices(r@) == bridge_notices(vendor, *o),
{
    let file = vendor.instructions;
    let mut said: Vec<Notice> = Vec::new();
    match o {
        BridgeOutcome::Written => said.push(
            Notice::Done(cat3("wrote ", file, " (it imports AGENTS.md)")),
        ),
        BridgeOutcome::WriteFailed(why) => said.push(
            Notice::Warn(
                cat5(
                    file,
                    " could not be written (",
                    why.as_str(),
                    ") - create it with one line: ",
                    CLAUDE_IMPORT,
                ),
            ),
        ),
        BridgeOutcome::Appeared => {
            said.push(
                Notice::Warn(
                    cat2(
                        file,
                        " appeared while docli was working and will not be edited - add this line at the top yourself:",
                    ),
                ),
            );
            said.push(Notice::Detail(CLAUDE_IMPORT.to_owned()));
        },
        BridgeOutcome::Failed(why) => said.push(
            Notice::Warn(
                cat5(
                    file,
                    " could not be created (",
                    why.as_str(),
                    ") - create it with one line: ",
                    CLAUDE_IMPORT,
                ),
            ),
        ),
    }
    assert(notices(said@) =~= bridge_notices(vendor, *o));
    said
}

/// What is said before anything is written. It follows the decisions that the installation will
/// make.
pub open spec fn consent_of(vendor: Vendor, read: ConfigRead, exists_already: bool) -> Seq<Seq<char>> {
    let file = vendor.instructions@;
    if read is Unreadable {
        seq![
            "AGENTS.md: NOT touched - it cannot be read, so the docli section is printed for you to add by hand"@,
            file + ": NOT created - it would import an AGENTS.md docli could not read"@,
        ]
    } else {
        let state = merged_val(read_text(read));
        seq![
            match state {
                AgentsMdVal::HandWritten =>
                    "AGENTS.md: NOT touched - it already describes docli in its own words, and docli will not add a second description"@,
                AgentsMdVal::Current =>
                    "AGENTS.md: already carries the docli section - nothing to change"@,
                AgentsMdVal::Write(_) =>
                    "AGENTS.md: a short docli section (read by Codex, Cursor, Gemini CLI, Zed, Copilot and about fifteen other tools)"@,
            },
            if exists_already {
                file
                    + ": NOT touched - it already exists, so the one line to add is printed for you to paste"@
            } else if state is HandWritten {
                file
                    + ": NOT created - it would import an AGENTS.md that carries no docli section"@
            } else {
                file + ": created, containing `"@ + CLAUDE_IMPORT@ + "` ("@ + vendor.name@
                    + " does not read AGENTS.md)"@
            },
        ]
    }
}

pub fn consent_summary(vendor: Vendor, read: &ConfigRead, exists_already: bool) -> (r: Vec<String>)
    ensures
        strs(r@) == consent_of(vendor, *read, exists_already),
{
    let file = vendor.instructions;
    let mut out: Vec<String> = Vec::new();
    if let ConfigRead::Unreadable(_) = read {
        out.push(
            "AGENTS.md: NOT touched - it cannot be read, so the docli section is printed for you to add by hand".to_owned(),
        );
        out.push(
            cat2(file, ": NOT created - it would import an AGENTS.md docli could not read"),
        );
        assert(strs(out@) =~= consent_of(vendor, *read, exists_already));
        return out;
    }
    let state = merged_agents_md(text_of(read));
    let hand: bool = match &state {
        AgentsMd::HandWritten => true,
        _ => false,
    };
    out.push(
        match &state {
            AgentsMd::HandWritten =>
                "AGENTS.md: NOT touched - it already describes docli in its own words, and docli will not add a second description".to_owned(),
            AgentsMd::Current =>
                "AGENTS.md: already carries the docli section - nothing to change".to_owned(),
            AgentsMd::Write(_) =>
                "AGENTS.md: a short docli section (read by Codex, Cursor, Gemini CLI, Zed, Copilot and about fifteen other tools)".to_owned(),
        },
    );
    if exists_already {
        out.push(
            cat2(
                file,
                ": NOT touched - it already exists, so the one line to add is printed for you to paste",
            ),
        );
    } else if hand {
        out.push(
            cat2(
                file,
                ": NOT created - it would import an AGENTS.md that carries no docli section",
            ),
        );
    } else {
        let head = cat4(file, ": created, containing `", CLAUDE_IMPORT, "` (");
        out.push(cat3(head.as_str(), vendor.name, " does not read AGENTS.md)"));
    }
    assert(strs(out@) =~= consent_of(vendor, *read, exists_already));
    out
}

/// A file that cannot be read is left alone, with the section printed; one that has the current
/// section, or speaks of docli in its own words, is left alone; every other gets the section, and
/// where there is no file the section is all of it.
pub proof fn the_section_is_written_where_it_is_missing(read: ConfigRead, text: Seq<char>)
    ensures
        read is Unreadable ==> agents_step_of(read) is Stop,
        read is Missing ==> agents_step_of(read) == AgentsStepVal::Write(block_text(), false),
        read matches ConfigRead::Text(t) ==> {
            &&& !has_sub(t@, "docli"@) && section_of(t@) is None ==> (agents_step_of(read) matches
                AgentsStepVal::Write(body, had) && had && t@.is_prefix_of(body) && block_text()
                == body.subrange(body.len() - block_text().len(), body.len() as int))
            &&& has_sub(t@, "docli"@) && section_of(t@) is None ==> (agents_step_of(read) matches
                AgentsStepVal::Settled(have, said) && !have)
            &&& section_of(t@) is Some ==> (agents_step_of(read) matches AgentsStepVal::Write(
                body,
                had,
            ) && had) || (agents_step_of(read) matches AgentsStepVal::Settled(have, said) && have)
        },
{
    if let ConfigRead::Text(t) = read {
        if !has_sub(t@, "docli"@) && section_of(t@) is None {
            let body = appended(t@);
            let b = block_text();
            assert(body.subrange(body.len() - b.len(), body.len() as int) =~= b);
            assert(body.subrange(0, t@.len() as int) =~= t@);
        }
    }
}

/// The file that imports `AGENTS.md` is created just where there is none and the section is there;
/// an existing one is never edited.
pub proof fn an_import_is_created_where_there_is_something_to_import(
    vendor: Vendor,
    exists_already: bool,
    have_section: bool,
)
    ensures
        bridge_of(vendor, exists_already, have_section) is Create <==> !exists_already
            && have_section,
        bridge_of(vendor, false, true) == BridgeVal::Create("@AGENTS.md"@ + "\n"@),
        exists_already ==> (bridge_of(vendor, exists_already, have_section) matches BridgeVal::Say(
            said,
        ) && said.last() == NoticeVal::Detail("@AGENTS.md"@)),
{
}

/// What is announced is what is then done: the section is announced just where it is written, and the
/// import just where it is created once the section is there.
pub proof fn what_is_announced_is_done(vendor: Vendor, read: ConfigRead, exists_already: bool)
    ensures
        consent_of(vendor, read, exists_already).len() == 2,
        agents_step_of(read) is Write <==> consent_of(vendor, read, exists_already)[0]
            == "AGENTS.md: a short docli section (read by Codex, Cursor, Gemini CLI, Zed, Copilot and about fifteen other tools)"@,
        ({
            let have = agents_step_of(read) is Write || (agents_step_of(read) matches
                AgentsStepVal::Settled(h, said) && h);
            bridge_of(vendor, exists_already, have) is Create && !(read is Unreadable)
                ==> consent_of(vendor, read, exists_already)[1] == vendor.instructions@
                + ": created, containing `"@ + "@AGENTS.md"@ + "` ("@ + vendor.name@
                + " does not read AGENTS.md)"@
        }),
{
    reveal_strlit(
        "AGENTS.md: NOT touched - it cannot be read, so the docli section is printed for you to add by hand",
    );
    reveal_strlit(
        "AGENTS.md: NOT touched - it already describes docli in its own words, and docli will not add a second description",
    );
    reveal_strlit("AGENTS.md: already carries the docli section - nothing to change");
    reveal_strlit(
        "AGENTS.md: a short docli section (read by Codex, Cursor, Gemini CLI, Zed, Copilot and about fifteen other tools)",
    );
    assert("AGENTS.md: NOT touched - it cannot be read, so the docli section is printed for you to add by hand"@[11]
        == 'N');
    assert("AGENTS.md: NOT touched - it already describes docli in its own words, and docli will not add a second description"@[11]
        == 'N');
    assert("AGENTS.md: already carries the docli section - nothing to change"@[12] == 'l');
    assert("AGENTS.md: a short docli section (read by Codex, Cursor, Gemini CLI, Zed, Copilot and about fifteen other tools)"@[12]
        == ' ');
}

/// Where the section goes behind a text, a blank line stands between them.
pub proof fn a_blank_line_stands_before_the_section(t: String)
    requires
        !has_sub(t@, "docli"@),
        section_of(t@) is None,
        t@.len() > 0,
        trim_of(t@).len() > 0,
        trim_of(t@.push('\n')).len() > 0,
    ensures
        t@.last() == '\n' ==> agents_step_of(ConfigRead::Text(t)) == AgentsStepVal::Write(
            t@ + seq!['\n'] + block_text(),
            true,
        ),
        t@.last() != '\n' ==> agents_step_of(ConfigRead::Text(t)) == AgentsStepVal::Write(
            t@ + seq!['\n', '\n'] + block_text(),
            true,
        ),
{
    reveal_strlit("\n");
    assert("\n"@ =~= seq!['\n']);
    if t@.last() != '\n' {
        assert(t@.push('\n') + seq!['\n'] + block_text() =~= t@ + seq!['\n', '\n'] + block_text());
    }
}

} // verus!
