//! What a command has to say, as data: the caller decides how each line is styled and where it
//! goes.

use vstd::prelude::*;

use crate::text::decimal;
use crate::text::decimal_of;

verus! {

/// A piece of a line, in one style.
#[derive(Debug, PartialEq, Eq)]
pub enum Span {
    Plain(String),
    Dim(String),
    Bold(String),
}

/// What a [`Span`] says.
pub enum SpanVal {
    Plain(Seq<char>),
    Dim(Seq<char>),
    Bold(Seq<char>),
}

impl Span {
    pub open spec fn view(&self) -> SpanVal {
        match self {
            Span::Plain(s) => SpanVal::Plain(s@),
            Span::Dim(s) => SpanVal::Dim(s@),
            Span::Bold(s) => SpanVal::Bold(s@),
        }
    }
}

/// What a list of spans says.
pub open spec fn spans(v: Seq<Span>) -> Seq<SpanVal> {
    Seq::new(v.len(), |i: int| v[i].view())
}

/// The text of a span, whatever its style.
pub open spec fn bare(s: SpanVal) -> Seq<char> {
    match s {
        SpanVal::Plain(t) => t,
        SpanVal::Dim(t) => t,
        SpanVal::Bold(t) => t,
    }
}

/// The text of a line without its styles.
pub open spec fn plain_of(v: Seq<SpanVal>) -> Seq<char>
    decreases v.len(),
{
    if v.len() == 0 {
        Seq::empty()
    } else {
        plain_of(v.drop_last()) + bare(v.last())
    }
}

/// The text of a line without its styles.
pub fn plain_text(v: &Vec<Span>) -> (r: String)
    ensures
        r@ == plain_of(spans(v@)),
{
    let ghost all = spans(v@);
    let mut out = String::new();
    assert(out@ =~= plain_of(all.take(0)));
    for i in 0..v.len()
        invariant
            all == spans(v@),
            out@ == plain_of(all.take(i as int)),
    {
        assert(all.take(i + 1).drop_last() =~= all.take(i as int));
        match &v[i] {
            Span::Plain(t) => out.push_str(t.as_str()),
            Span::Dim(t) => out.push_str(t.as_str()),
            Span::Bold(t) => out.push_str(t.as_str()),
        }
    }
    assert(all.take(v@.len() as int) =~= all);
    out
}

/// A number with the noun that goes with it.
pub open spec fn counted(n: nat, one: Seq<char>, many: Seq<char>) -> Seq<char> {
    decimal_of(n) + " "@ + if n == 1 {
        one
    } else {
        many
    }
}

/// A number with the noun that goes with it.
pub fn plural(n: usize, one: &str, many: &str) -> (r: String)
    ensures
        r@ == counted(n as nat, one@, many@),
{
    let mut r = decimal(n as u64);
    r.push_str(" ");
    if n == 1 {
        r.push_str(one);
    } else {
        r.push_str(many);
    }
    r
}

/// One line of output.
#[derive(Debug, PartialEq, Eq)]
pub enum Notice {
    Heading(String),
    Line(String),
    Done(String),
    Detail(String),
    Warn(String),
    Refuse(String),
    Next(String),
    /// A line in several styles.
    Styled(Vec<Span>),
}

/// What a [`Notice`] says.
pub enum NoticeVal {
    Heading(Seq<char>),
    Line(Seq<char>),
    Done(Seq<char>),
    Detail(Seq<char>),
    Warn(Seq<char>),
    Refuse(Seq<char>),
    Next(Seq<char>),
    Styled(Seq<SpanVal>),
}

impl Notice {
    pub open spec fn view(&self) -> NoticeVal {
        match self {
            Notice::Heading(s) => NoticeVal::Heading(s@),
            Notice::Line(s) => NoticeVal::Line(s@),
            Notice::Done(s) => NoticeVal::Done(s@),
            Notice::Detail(s) => NoticeVal::Detail(s@),
            Notice::Warn(s) => NoticeVal::Warn(s@),
            Notice::Refuse(s) => NoticeVal::Refuse(s@),
            Notice::Next(s) => NoticeVal::Next(s@),
            Notice::Styled(v) => NoticeVal::Styled(spans(v@)),
        }
    }
}

/// What a list of notices says.
pub open spec fn notices(v: Seq<Notice>) -> Seq<NoticeVal> {
    Seq::new(v.len(), |i: int| v[i].view())
}

pub broadcast proof fn lemma_notices_push(v: Seq<Notice>, n: Notice)
    ensures
        #[trigger] notices(v.push(n)) == notices(v).push(n.view()),
{
    assert(notices(v.push(n)) =~= notices(v).push(n.view()));
}

/// The text of a line is the text of its first part with that of the rest behind it, whatever the
/// style of either.
pub proof fn a_line_reads_from_left_to_right(a: Seq<SpanVal>, b: Seq<SpanVal>, t: Seq<char>)
    ensures
        plain_of(a + b) == plain_of(a) + plain_of(b),
        plain_of(seq![SpanVal::Plain(t)]) == t,
        plain_of(seq![SpanVal::Dim(t)]) == t,
        plain_of(seq![SpanVal::Bold(t)]) == t,
        plain_of(Seq::empty()).len() == 0,
    decreases b.len(),
{
    reveal_with_fuel(plain_of, 2);
    assert(seq![SpanVal::Plain(t)].drop_last() =~= Seq::empty());
    assert(seq![SpanVal::Dim(t)].drop_last() =~= Seq::empty());
    assert(seq![SpanVal::Bold(t)].drop_last() =~= Seq::empty());
    assert(Seq::<char>::empty() + t =~= t);
    if b.len() == 0 {
        assert(a + b =~= a);
    } else {
        a_line_reads_from_left_to_right(a, b.drop_last(), t);
        assert((a + b).drop_last() =~= a + b.drop_last());
        assert((a + b).last() == b.last());
        assert(plain_of(a + b) =~= plain_of(a) + plain_of(b));
    }
}

/// A count is the digits of its number, a blank, and the noun for one or for any other number.
pub proof fn a_count_agrees_with_its_noun(n: nat, one: Seq<char>, many: Seq<char>)
    ensures
        n == 1 ==> counted(n, one, many) == decimal_of(n) + seq![' '] + one,
        n != 1 ==> counted(n, one, many) == decimal_of(n) + seq![' '] + many,
{
    reveal_strlit(" ");
    assert(" "@ =~= seq![' ']);
}

} // verus!
