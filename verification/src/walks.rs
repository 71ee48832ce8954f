//! Walks over an edited text: an edit in one place of a JSON document does not move what a walk
//! finds in another.

use vstd::prelude::*;

use crate::json::is_bare_key;
use crate::json::one_member_text;
use crate::jsontext::any_escaped;
use crate::jsontext::close_of;
use crate::jsontext::is_blank;
use crate::jsontext::is_close;
use crate::jsontext::is_delimiter;
use crate::jsontext::is_escaped;
use crate::jsontext::is_key;
use crate::jsontext::is_open;
use crate::jsontext::keys_named;
use crate::jsontext::lemma_close_of;
use crate::jsontext::lemma_keys_have_values;
use crate::jsontext::lemma_skip_blank;
use crate::jsontext::lemma_skip_separators;
use crate::jsontext::lemma_string_end;
use crate::jsontext::lemma_value_end;
use crate::jsontext::lemma_value_of_key;
use crate::jsontext::members_from;
use crate::jsontext::object_of_key;
use crate::jsontext::quoted_from;
use crate::jsontext::scalar_end;
use crate::jsontext::skip_blank;
use crate::jsontext::skip_separators;
use crate::jsontext::spans_from;
use crate::jsontext::splice_of;
use crate::jsontext::string_end;
use crate::jsontext::value_at;
use crate::jsontext::value_end;
use crate::jsontext::value_of_key;
use crate::jsontext::Quoted;

verus! {

/// What a walk has found of a key.
pub struct Tally {
    /// An escaped string stands beside the keys.
    pub escaped: bool,
    /// The strings that are the key.
    pub named: Seq<Quoted>,
}

/// What one string says of a key.
pub open spec fn noted(s: Seq<char>, q: Quoted, key: Seq<char>) -> Tally {
    Tally {
        escaped: is_escaped(s, q),
        named: if is_key(s, q, key) {
            seq![q]
        } else {
            Seq::empty()
        },
    }
}

/// What was found first, put before what a walk finds.
pub open spec fn plus(head: Tally, rest: Option<Tally>) -> Option<Tally> {
    match rest {
        Some(r) => Some(Tally { escaped: head.escaped || r.escaped, named: head.named + r.named }),
        None => None,
    }
}

pub open spec fn nothing() -> Tally {
    Tally { escaped: false, named: Seq::empty() }
}

/// What a walk from `i` on finds of a key, with `d` brackets open: to the end of the text, or,
/// `inside` an object, to where the object closes.
pub open spec fn tally(s: Seq<char>, i: int, d: int, key: Seq<char>, inside: bool) -> Option<Tally>
    decreases s.len() - i,
{
    if i < 0 || i >= s.len() {
        if inside {
            None
        } else {
            Some(nothing())
        }
    } else if s[i] == '"' {
        match string_end(s, i + 1) {
            Some(e) => {
                proof {
                    lemma_string_end(s, i + 1);
                }
                plus(
                    noted(s, Quoted { start: i + 1, end: e, depth: d }, key),
                    tally(s, e + 1, d, key, inside),
                )
            },
            None => None,
        }
    } else if is_open(s[i]) {
        tally(s, i + 1, d + 1, key, inside)
    } else if is_close(s[i]) {
        if d <= 0 {
            None
        } else if inside && d == 1 {
            Some(nothing())
        } else {
            tally(s, i + 1, d - 1, key, inside)
        }
    } else {
        tally(s, i + 1, d, key, inside)
    }
}

/// From `i` to `j` every string ends and every bracket closes that was opened, and the `c`
/// brackets that are open at `i` close too.
pub open spec fn levels(s: Seq<char>, i: int, c: int, j: int) -> bool
    decreases j - i,
{
    if i < 0 || i >= j || j > s.len() {
        i == j && c == 0
    } else if s[i] == '"' {
        match string_end(s, i + 1) {
            Some(e) => {
                proof {
                    lemma_string_end(s, i + 1);
                }
                e < j && levels(s, e + 1, c, j)
            },
            None => false,
        }
    } else if is_open(s[i]) {
        levels(s, i + 1, c + 1, j)
    } else if is_close(s[i]) {
        c > 0 && levels(s, i + 1, c - 1, j)
    } else {
        levels(s, i + 1, c, j)
    }
}

/// From `i` on, with `d` brackets open, no more than `most` are open at once.
pub open spec fn nests(s: Seq<char>, i: int, d: int, most: int) -> bool
    decreases s.len() - i,
{
    if i < 0 || i >= s.len() {
        true
    } else if s[i] == '"' {
        match string_end(s, i + 1) {
            Some(e) => {
                proof {
                    lemma_string_end(s, i + 1);
                }
                nests(s, e + 1, d, most)
            },
            None => false,
        }
    } else if is_open(s[i]) {
        d < most && nests(s, i + 1, d + 1, most)
    } else if is_close(s[i]) {
        nests(s, i + 1, d - 1, most)
    } else {
        nests(s, i + 1, d, most)
    }
}

/// The brackets of a text nest no deeper than `most`.
pub open spec fn nests_within(s: Seq<char>, most: nat) -> bool {
    nests(s, 0, 0, most as int)
}

/// What stands from `lo` up to `hi` in one text stands in the other, moved by `by`.
pub open spec fn agree(s: Seq<char>, t: Seq<char>, lo: int, hi: int, by: int) -> bool {
    &&& 0 <= lo
    &&& hi <= s.len()
    &&& 0 <= lo + by
    &&& hi + by <= t.len()
    &&& forall|x: int| lo <= x < hi ==> #[trigger] s[x] == t[x + by]
}

pub open spec fn moved(q: Quoted, by: int) -> Quoted {
    Quoted { start: q.start + by, end: q.end + by, depth: q.depth }
}

pub open spec fn moved_all(r: Tally, by: int) -> Tally {
    Tally { escaped: r.escaped, named: Seq::new(r.named.len(), |k: int| moved(r.named[k], by)) }
}

proof fn lemma_string_agrees(s: Seq<char>, t: Seq<char>, lo: int, hi: int, by: int, i: int)
    requires
        agree(s, t, lo, hi, by),
        lo <= i,
        string_end(s, i) is Some,
        string_end(s, i)->0 < hi,
    ensures
        string_end(t, i + by) == Some(string_end(s, i)->0 + by),
    decreases s.len() - i,
{
    lemma_string_end(s, i);
    assert(s[i] == t[i + by]);
    if s[i] == '\\' {
        lemma_string_agrees(s, t, lo, hi, by, i + 2);
    } else if s[i] != '"' {
        lemma_string_agrees(s, t, lo, hi, by, i + 1);
    }
}

proof fn lemma_close_agrees(s: Seq<char>, t: Seq<char>, lo: int, hi: int, by: int, i: int, c: int)
    requires
        agree(s, t, lo, hi, by),
        lo <= i,
        close_of(s, i, c) is Some,
        close_of(s, i, c)->0 <= hi,
    ensures
        close_of(t, i + by, c) == Some(close_of(s, i, c)->0 + by),
    decreases s.len() - i,
{
    lemma_close_of(s, i, c);
    assert(s[i] == t[i + by]);
    if s[i] == '"' {
        let e = string_end(s, i + 1)->0;
        lemma_string_end(s, i + 1);
        lemma_close_of(s, e + 1, c);
        lemma_string_agrees(s, t, lo, hi, by, i + 1);
        lemma_close_agrees(s, t, lo, hi, by, e + 1, c);
    } else if is_open(s[i]) {
        lemma_close_agrees(s, t, lo, hi, by, i + 1, c + 1);
    } else if is_close(s[i]) {
        if c > 1 {
            lemma_close_agrees(s, t, lo, hi, by, i + 1, c - 1);
        }
    } else {
        lemma_close_agrees(s, t, lo, hi, by, i + 1, c);
    }
}

/// The agreement reaches to the end of both texts.
pub open spec fn to_end(s: Seq<char>, t: Seq<char>, hi: int, by: int) -> bool {
    hi == s.len() && t.len() == s.len() + by
}

proof fn lemma_blank_agrees(s: Seq<char>, t: Seq<char>, lo: int, hi: int, by: int, i: int)
    requires
        agree(s, t, lo, hi, by),
        lo <= i,
        skip_blank(s, i) < hi || to_end(s, t, hi, by),
    ensures
        skip_blank(t, i + by) == skip_blank(s, i) + by,
    decreases s.len() - i,
{
    lemma_skip_blank(s, i);
    if i < hi {
        assert(s[i] == t[i + by]);
        if is_blank(s[i]) {
            lemma_blank_agrees(s, t, lo, hi, by, i + 1);
        }
    }
}

/// A string says the same of a key in both texts.
proof fn lemma_note_agrees(
    s: Seq<char>,
    t: Seq<char>,
    lo: int,
    hi: int,
    by: int,
    q: Quoted,
    key: Seq<char>,
)
    requires
        agree(s, t, lo, hi, by),
        lo <= q.start <= q.end < hi,
        skip_blank(s, q.end + 1) < hi || to_end(s, t, hi, by),
    ensures
        noted(t, moved(q, by), key) == moved_all(noted(s, q, key), by),
        is_key(t, moved(q, by), key) == is_key(s, q, key),
{
    let m = moved(q, by);
    assert(t.subrange(m.start, m.end) =~= s.subrange(q.start, q.end)) by {
        assert forall|k: int| 0 <= k < q.end - q.start implies t.subrange(m.start, m.end)[k]
            == s.subrange(q.start, q.end)[k] by {
            assert(s[q.start + k] == t[q.start + k + by]);
        }
    }
    lemma_blank_agrees(s, t, lo, hi, by, q.end + 1);
    let at = skip_blank(s, q.end + 1);
    lemma_skip_blank(s, q.end + 1);
    if at < hi {
        assert(s[at] == t[at + by]);
    }
    assert(is_key(t, m, key) == is_key(s, q, key));
    assert(noted(t, m, key).named =~= moved_all(noted(s, q, key), by).named);
}

/// Behind an edit, a walk finds what it found, moved.
proof fn lemma_tail(
    s: Seq<char>,
    t: Seq<char>,
    lo: int,
    by: int,
    i: int,
    d: int,
    key: Seq<char>,
    inside: bool,
)
    requires
        agree(s, t, lo, s.len() as int, by),
        t.len() == s.len() + by,
        lo <= i,
        tally(s, i, d, key, inside) is Some,
    ensures
        tally(t, i + by, d, key, inside) == Some(moved_all(tally(s, i, d, key, inside)->0, by)),
        forall|k: int|
            0 <= k < tally(s, i, d, key, inside)->0.named.len() ==> (#[trigger] tally(
                s,
                i,
                d,
                key,
                inside,
            )->0.named[k]).start > i,
    decreases s.len() - i,
{
    let hi = s.len() as int;
    let all = tally(s, i, d, key, inside)->0;
    if i >= s.len() {
        assert(moved_all(nothing(), by).named =~= nothing().named);
    } else {
        assert(s[i] == t[i + by]);
        if s[i] == '"' {
            let e = string_end(s, i + 1)->0;
            lemma_string_end(s, i + 1);
            let q = Quoted { start: i + 1, end: e, depth: d };
            lemma_string_agrees(s, t, lo, hi, by, i + 1);
            lemma_note_agrees(s, t, lo, hi, by, q, key);
            lemma_tail(s, t, lo, by, e + 1, d, key, inside);
            let rest = tally(s, e + 1, d, key, inside)->0;
            let one = noted(s, q, key);
            assert(moved_all(all, by).named =~= moved_all(one, by).named + moved_all(
                rest,
                by,
            ).named);
            assert forall|k: int| 0 <= k < all.named.len() implies (#[trigger] all.named[k]).start
                > i by {
                if k >= one.named.len() {
                    assert(all.named[k] == rest.named[k - one.named.len()]);
                }
            }
        } else if is_open(s[i]) {
            lemma_tail(s, t, lo, by, i + 1, d + 1, key, inside);
        } else if is_close(s[i]) {
            if inside && d == 1 {
                assert(moved_all(nothing(), by).named =~= nothing().named);
            } else {
                lemma_tail(s, t, lo, by, i + 1, d - 1, key, inside);
            }
        } else {
            lemma_tail(s, t, lo, by, i + 1, d, key, inside);
        }
    }
}

/// What a walk names begins behind where the walk does.
proof fn lemma_named_behind(s: Seq<char>, i: int, d: int, key: Seq<char>, inside: bool)
    requires
        0 <= i,
        tally(s, i, d, key, inside) is Some,
    ensures
        forall|k: int|
            0 <= k < tally(s, i, d, key, inside)->0.named.len() ==> (#[trigger] tally(
                s,
                i,
                d,
                key,
                inside,
            )->0.named[k]).start > i,
{
    if i <= s.len() {
        lemma_tail(s, s, 0, 0, i, d, key, inside);
    }
}

/// A walk two brackets deep passes a level stretch and finds nothing there.
proof fn lemma_level_passed(
    s: Seq<char>,
    i: int,
    c: int,
    j: int,
    d: int,
    key: Seq<char>,
    inside: bool,
)
    requires
        levels(s, i, c, j),
        0 <= i <= j <= s.len(),
        0 <= c,
        2 <= d,
    ensures
        tally(s, i, d + c, key, inside) == tally(s, j, d, key, inside),
    decreases j - i,
{
    if i < j {
        if s[i] == '"' {
            let e = string_end(s, i + 1)->0;
            lemma_string_end(s, i + 1);
            lemma_level_passed(s, e + 1, c, j, d, key, inside);
            lemma_nothing_added(tally(s, j, d, key, inside));
            assert(noted(s, Quoted { start: i + 1, end: e, depth: d + c }, key) == nothing());
        } else if is_open(s[i]) {
            lemma_level_passed(s, i + 1, c + 1, j, d, key, inside);
        } else if is_close(s[i]) {
            lemma_level_passed(s, i + 1, c - 1, j, d, key, inside);
        } else {
            lemma_level_passed(s, i + 1, c, j, d, key, inside);
        }
    }
}

proof fn lemma_nothing_added(r: Option<Tally>)
    ensures
        plus(nothing(), r) == r,
{
    if let Some(x) = r {
        assert(nothing().named + x.named =~= x.named);
    }
}

/// A walk one bracket deep passes a bracketed value and finds nothing in it.
proof fn lemma_value_passed(s: Seq<char>, i: int, c: int, key: Seq<char>, inside: bool)
    requires
        1 <= c,
        close_of(s, i, c) is Some,
    ensures
        tally(s, i, c + 1, key, inside) == tally(s, close_of(s, i, c)->0, 1, key, inside),
    decreases s.len() - i,
{
    if s[i] == '"' {
        let e = string_end(s, i + 1)->0;
        lemma_string_end(s, i + 1);
        lemma_value_passed(s, e + 1, c, key, inside);
        lemma_nothing_added(tally(s, e + 1, c + 1, key, inside));
        assert(noted(s, Quoted { start: i + 1, end: e, depth: c + 1 }, key) == nothing());
    } else if is_open(s[i]) {
        lemma_value_passed(s, i + 1, c + 1, key, inside);
    } else if is_close(s[i]) {
        if c > 1 {
            lemma_value_passed(s, i + 1, c - 1, key, inside);
        }
    } else {
        lemma_value_passed(s, i + 1, c, key, inside);
    }
}

proof fn lemma_blank_passed(s: Seq<char>, i: int, d: int, key: Seq<char>, inside: bool)
    requires
        0 <= i,
    ensures
        tally(s, i, d, key, inside) == tally(s, skip_blank(s, i), d, key, inside),
    decreases s.len() - i,
{
    if i < s.len() && is_blank(s[i]) {
        lemma_blank_passed(s, i + 1, d, key, inside);
    }
}

/// A walk goes on from a key to its value.
proof fn lemma_to_value(s: Seq<char>, q: Quoted, d: int, other: Seq<char>, key: Seq<char>, inside: bool)
    requires
        is_key(s, q, other),
        0 <= q.end,
    ensures
        tally(s, q.end + 1, d, key, inside) == tally(s, value_at(s, q), d, key, inside),
        q.end + 1 < value_at(s, q),
{
    lemma_blank_passed(s, q.end + 1, d, key, inside);
    lemma_skip_blank(s, q.end + 1);
    let colon = skip_blank(s, q.end + 1);
    lemma_skip_blank(s, colon + 1);
    lemma_blank_passed(s, colon + 1, d, key, inside);
}

/// A walk goes on from a key to behind its bracketed value.
proof fn lemma_over_value(s: Seq<char>, q: Quoted, other: Seq<char>, key: Seq<char>, inside: bool)
    requires
        is_key(s, q, other),
        0 <= q.end,
        value_end(s, value_at(s, q)) is Some,
        is_open(s[value_at(s, q)]),
    ensures
        tally(s, q.end + 1, 1, key, inside) == tally(
            s,
            value_end(s, value_at(s, q))->0,
            1,
            key,
            inside,
        ),
{
    lemma_to_value(s, q, 1, other, key, inside);
    let at = value_at(s, q);
    assert(close_of(s, at, 0) == close_of(s, at + 1, 1));
    lemma_value_passed(s, at + 1, 1, key, inside);
}

/// Both tallies, one behind the other.
pub open spec fn both(a: Tally, b: Tally) -> Tally {
    Tally { escaped: a.escaped || b.escaped, named: a.named + b.named }
}

proof fn lemma_both(a: Tally, b: Tally, r: Option<Tally>)
    ensures
        plus(a, plus(b, r)) == plus(both(a, b), r),
{
    if let Some(x) = r {
        assert(a.named + (b.named + x.named) =~= (a.named + b.named) + x.named);
    }
}

/// What a list of strings says of a key.
pub open spec fn told(s: Seq<char>, qs: Seq<Quoted>, key: Seq<char>) -> Tally {
    Tally { escaped: any_escaped(s, qs), named: keys_named(s, qs, key) }
}

proof fn lemma_told_first(s: Seq<char>, q: Quoted, rest: Seq<Quoted>, key: Seq<char>)
    ensures
        Some(told(s, seq![q] + rest, key)) == plus(noted(s, q, key), Some(told(s, rest, key))),
{
    let p = |x: Quoted| is_key(s, x, key);
    let all = seq![q] + rest;
    Seq::filter_distributes_over_add(seq![q], rest, p);
    assert(seq![q].drop_last() =~= Seq::<Quoted>::empty());
    reveal_with_fuel(Seq::filter, 2);
    assert(seq![q].filter(p) =~= noted(s, q, key).named);
    if is_escaped(s, q) {
        assert(all[0] == q);
    }
    if any_escaped(s, rest) {
        let k = choose|k: int| 0 <= k < rest.len() && is_escaped(s, #[trigger] rest[k]);
        assert(all[k + 1] == rest[k]);
    }
    if any_escaped(s, all) && !is_escaped(s, q) {
        let k = choose|k: int| 0 <= k < all.len() && is_escaped(s, #[trigger] all[k]);
        assert(rest[k - 1] == all[k]);
    }
    assert(told(s, all, key).named =~= noted(s, q, key).named + told(s, rest, key).named);
}

proof fn lemma_told_none(s: Seq<char>, key: Seq<char>)
    ensures
        told(s, Seq::empty(), key) == nothing(),
{
    reveal(Seq::filter);
    assert(told(s, Seq::empty(), key).named =~= nothing().named);
}

/// The walk over a whole text, as a tally.
proof fn lemma_root_tally(s: Seq<char>, i: int, d: int, key: Seq<char>)
    ensures
        match quoted_from(s, i, d) {
            Some(qs) => tally(s, i, d, key, false) == Some(told(s, qs, key)),
            None => tally(s, i, d, key, false) is None,
        },
    decreases s.len() - i,
{
    lemma_told_none(s, key);
    if 0 <= i < s.len() {
        if s[i] == '"' {
            if let Some(e) = string_end(s, i + 1) {
                lemma_string_end(s, i + 1);
                lemma_root_tally(s, e + 1, d, key);
                if let Some(rest) = quoted_from(s, e + 1, d) {
                    lemma_told_first(s, Quoted { start: i + 1, end: e, depth: d }, rest, key);
                }
            }
        } else if is_open(s[i]) {
            lemma_root_tally(s, i + 1, d + 1, key);
        } else if is_close(s[i]) {
            if d > 0 {
                lemma_root_tally(s, i + 1, d - 1, key);
            }
        } else {
            lemma_root_tally(s, i + 1, d, key);
        }
    }
}

/// The walk over an object, as a tally, where the key has bracketed values.
proof fn lemma_inside_tally(s: Seq<char>, i: int, d: int, key: Seq<char>)
    requires
        members_from(s, i, d, key) is Some,
        forall|k: int|
            0 <= k < keys_named(s, members_from(s, i, d, key)->0, key).len() ==> is_open(
                s[value_at(s, #[trigger] keys_named(s, members_from(s, i, d, key)->0, key)[k])],
            ),
    ensures
        tally(s, i, d, key, true) == Some(told(s, members_from(s, i, d, key)->0, key)),
    decreases s.len() - i,
{
    lemma_told_none(s, key);
    if s[i] == '"' {
        let e = string_end(s, i + 1)->0;
        lemma_string_end(s, i + 1);
        let q = Quoted { start: i + 1, end: e, depth: d };
        let next = if is_key(s, q, key) {
            value_end(s, value_at(s, q))->0
        } else {
            e + 1
        };
        lemma_skip_blank(s, e + 1);
        lemma_skip_blank(s, skip_blank(s, e + 1) + 1);
        if is_key(s, q, key) {
            lemma_value_end(s, value_at(s, q));
        }
        let rest = members_from(s, next, d, key)->0;
        lemma_told_first(s, q, rest, key);
        let all = keys_named(s, seq![q] + rest, key);
        let one = noted(s, q, key).named;
        let named = keys_named(s, rest, key);
        assert(all == one + named);
        assert forall|k: int| 0 <= k < named.len() implies is_open(
            s[value_at(s, #[trigger] named[k])],
        ) by {
            assert(all[k + one.len()] == named[k]);
        }
        if is_key(s, q, key) {
            assert(all[0] == q);
            lemma_over_value(s, q, key, key, true);
        }
        lemma_inside_tally(s, next, d, key);
    } else if is_open(s[i]) {
        lemma_inside_tally(s, i + 1, d + 1, key);
    } else if is_close(s[i]) {
        if d > 1 {
            lemma_inside_tally(s, i + 1, d - 1, key);
        }
    } else {
        lemma_inside_tally(s, i + 1, d, key);
    }
}

/// A tally over an object in which the key has bracketed values, as a walk.
proof fn lemma_members_tally(s: Seq<char>, i: int, d: int, key: Seq<char>)
    requires
        0 <= i,
        tally(s, i, d, key, true) is Some,
        forall|k: int|
            0 <= k < tally(s, i, d, key, true)->0.named.len() ==> is_open(
                s[value_at(s, #[trigger] tally(s, i, d, key, true)->0.named[k])],
            ) && value_end(s, value_at(s, tally(s, i, d, key, true)->0.named[k])) is Some,
    ensures
        members_from(s, i, d, key) is Some,
        tally(s, i, d, key, true) == Some(told(s, members_from(s, i, d, key)->0, key)),
    decreases s.len() - i,
{
    lemma_told_none(s, key);
    if s[i] == '"' {
        let e = string_end(s, i + 1)->0;
        lemma_string_end(s, i + 1);
        let q = Quoted { start: i + 1, end: e, depth: d };
        let all = tally(s, i, d, key, true)->0;
        let rest = tally(s, e + 1, d, key, true)->0;
        let one = noted(s, q, key).named;
        assert(all.named == one + rest.named);
        assert forall|k: int| 0 <= k < rest.named.len() implies is_open(
            s[value_at(s, #[trigger] rest.named[k])],
        ) && value_end(s, value_at(s, rest.named[k])) is Some by {
            assert(all.named[k + one.len()] == rest.named[k]);
        }
        lemma_skip_blank(s, e + 1);
        lemma_skip_blank(s, skip_blank(s, e + 1) + 1);
        if is_key(s, q, key) {
            assert(all.named[0] == q);
            lemma_value_end(s, value_at(s, q));
            lemma_over_value(s, q, key, key, true);
            lemma_members_tally(s, value_end(s, value_at(s, q))->0, d, key);
            lemma_told_first(
                s,
                q,
                members_from(s, value_end(s, value_at(s, q))->0, d, key)->0,
                key,
            );
        } else {
            lemma_members_tally(s, e + 1, d, key);
            lemma_told_first(s, q, members_from(s, e + 1, d, key)->0, key);
        }
    } else if is_open(s[i]) {
        lemma_members_tally(s, i + 1, d + 1, key);
    } else if is_close(s[i]) {
        if d > 1 {
            lemma_members_tally(s, i + 1, d - 1, key);
        }
    } else {
        lemma_members_tally(s, i + 1, d, key);
    }
}

/// Blanks end before a character that is not blank.
proof fn lemma_blank_stops(s: Seq<char>, i: int, p: int)
    requires
        0 <= i <= p < s.len(),
        !is_blank(s[p]),
    ensures
        skip_blank(s, i) <= p,
    decreases p - i,
{
    if i < p && is_blank(s[i]) {
        lemma_blank_stops(s, i + 1, p);
    }
}

proof fn lemma_value_at_agrees(s: Seq<char>, t: Seq<char>, lo: int, hi: int, by: int, q: Quoted)
    requires
        agree(s, t, lo, hi, by),
        lo <= q.end,
        value_at(s, q) < hi,
    ensures
        value_at(t, moved(q, by)) == value_at(s, q) + by,
{
    let colon = skip_blank(s, q.end + 1);
    lemma_skip_blank(s, q.end + 1);
    lemma_skip_blank(s, colon + 1);
    lemma_blank_agrees(s, t, lo, hi, by, q.end + 1);
    lemma_blank_agrees(s, t, lo, hi, by, colon + 1);
}

/// A walk that finds the key `q` comes to its value, in both texts, and has found the same on the
/// way there.
proof fn lemma_split(
    s: Seq<char>,
    t: Seq<char>,
    i: int,
    d: int,
    other: Seq<char>,
    q: Quoted,
    key: Seq<char>,
    inside: bool,
) -> (pre: Tally)
    requires
        0 <= i,
        tally(s, i, d, other, inside) is Some,
        tally(s, i, d, other, inside)->0.named.contains(q),
        value_at(s, q) < s.len(),
        agree(s, t, 0, value_at(s, q) + 1, 0),
        !is_blank(s[value_at(s, q)]),
    ensures
        tally(s, i, d, key, inside) == plus(pre, tally(s, value_at(s, q), 1, key, inside)),
        tally(t, i, d, key, inside) == plus(pre, tally(t, value_at(s, q), 1, key, inside)),
        is_key(s, q, other),
        i < q.start <= q.end,
        q.end + 1 < value_at(s, q),
        forall|k: int|
            0 <= k < pre.named.len() ==> (#[trigger] pre.named[k]).end < q.start || pre.named[k] == q,
        forall|k: int|
            0 <= k < pre.named.len() ==> is_key(s, #[trigger] pre.named[k], key) && i
                < pre.named[k].start <= pre.named[k].end,
    decreases s.len() - i,
{
    let p = value_at(s, q);
    let all = tally(s, i, d, other, inside)->0;
    if s[i] == '"' {
        let e = string_end(s, i + 1)->0;
        lemma_string_end(s, i + 1);
        let here = Quoted { start: i + 1, end: e, depth: d };
        let one = noted(s, here, other).named;
        let rest = tally(s, e + 1, d, other, inside)->0.named;
        assert(all.named == one + rest);
        let k = choose|k: int| 0 <= k < all.named.len() && all.named[k] == q;
        let note = noted(s, here, key);
        assert(moved(here, 0) == here);
        assert(moved_all(note, 0).named =~= note.named);
        if k < one.len() {
            assert(q == here);
            lemma_to_value(s, q, 1, other, key, inside);
            lemma_skip_blank(s, e + 1);
            lemma_skip_blank(s, skip_blank(s, e + 1) + 1);
            assert(s[i] == t[i + 0]);
            lemma_string_agrees(s, t, 0, p + 1, 0, i + 1);
            lemma_note_agrees(s, t, 0, p + 1, 0, here, key);
            lemma_note_agrees(s, t, 0, p + 1, 0, here, other);
            lemma_value_at_agrees(s, t, 0, p + 1, 0, q);
            lemma_to_value(t, q, 1, other, key, inside);
            note
        } else {
            assert(rest[k - one.len()] == q);
            let more = lemma_split(s, t, e + 1, d, other, q, key, inside);
            lemma_blank_stops(s, e + 1, p);
            assert(s[i] == t[i + 0]);
            lemma_string_agrees(s, t, 0, p + 1, 0, i + 1);
            lemma_note_agrees(s, t, 0, p + 1, 0, here, key);
            lemma_both(note, more, tally(s, p, 1, key, inside));
            lemma_both(note, more, tally(t, p, 1, key, inside));
            let pre = both(note, more);
            assert forall|k: int| 0 <= k < pre.named.len() implies ((#[trigger] pre.named[k]).end
                < q.start || pre.named[k] == q) && is_key(s, pre.named[k], key) && i
                < pre.named[k].start <= pre.named[k].end by {
                if k >= note.named.len() {
                    assert(pre.named[k] == more.named[k - note.named.len()]);
                }
            }
            pre
        }
    } else {
        let next = if is_open(s[i]) {
            d + 1
        } else if is_close(s[i]) {
            d - 1
        } else {
            d
        };
        let pre = lemma_split(s, t, i + 1, next, other, q, key, inside);
        assert(s[i] == t[i + 0]);
        pre
    }
}

/// A walk over the whole text finds nothing on its way to a value in an object inside the root.
proof fn lemma_split_deeper(
    s: Seq<char>,
    t: Seq<char>,
    i: int,
    d: int,
    other: Seq<char>,
    q: Quoted,
    key: Seq<char>,
)
    requires
        0 <= i,
        1 <= d,
        tally(s, i, d, other, true) is Some,
        tally(s, i, d, other, true)->0.named.contains(q),
        value_at(s, q) < s.len(),
        agree(s, t, 0, value_at(s, q) + 1, 0),
        !is_blank(s[value_at(s, q)]),
    ensures
        tally(s, i, d + 1, key, false) == tally(s, value_at(s, q), 2, key, false),
        tally(t, i, d + 1, key, false) == tally(t, value_at(s, q), 2, key, false),
    decreases s.len() - i,
{
    let p = value_at(s, q);
    let all = tally(s, i, d, other, true)->0;
    let same = lemma_split(s, t, i, d, other, q, other, true);
    assert(s[i] == t[i + 0]);
    if s[i] == '"' {
        let e = string_end(s, i + 1)->0;
        lemma_string_end(s, i + 1);
        let here = Quoted { start: i + 1, end: e, depth: d };
        let one = noted(s, here, other).named;
        let rest = tally(s, e + 1, d, other, true)->0.named;
        assert(all.named == one + rest);
        let k = choose|k: int| 0 <= k < all.named.len() && all.named[k] == q;
        let deep = Quoted { start: i + 1, end: e, depth: d + 1 };
        assert(noted(s, deep, key) == nothing());
        assert(noted(t, deep, key) == nothing());
        lemma_nothing_added(tally(s, e + 1, d + 1, key, false));
        lemma_nothing_added(tally(t, e + 1, d + 1, key, false));
        if k < one.len() {
            assert(q == here);
            lemma_to_value(s, q, 2, other, key, false);
            lemma_skip_blank(s, e + 1);
            lemma_skip_blank(s, skip_blank(s, e + 1) + 1);
            lemma_string_agrees(s, t, 0, p + 1, 0, i + 1);
            lemma_note_agrees(s, t, 0, p + 1, 0, here, other);
            assert(moved(q, 0) == q);
            lemma_value_at_agrees(s, t, 0, p + 1, 0, q);
            lemma_to_value(t, q, 2, other, key, false);
        } else {
            assert(rest[k - one.len()] == q);
            let found = lemma_split(s, t, e + 1, d, other, q, other, true);
            lemma_string_agrees(s, t, 0, p + 1, 0, i + 1);
            lemma_split_deeper(s, t, e + 1, d, other, q, key);
        }
    } else if is_open(s[i]) {
        lemma_split_deeper(s, t, i + 1, d + 1, other, q, key);
    } else if is_close(s[i]) {
        lemma_split_deeper(s, t, i + 1, d - 1, other, q, key);
    } else {
        lemma_split_deeper(s, t, i + 1, d, other, q, key);
    }
}

/// A character that is neither a quote nor a bracket.
pub open spec fn is_quiet(c: char) -> bool {
    c != '"' && !is_open(c) && !is_close(c)
}

pub proof fn lemma_close_levels(s: Seq<char>, i: int, c: int)
    requires
        close_of(s, i, c) is Some,
        1 <= c || (c == 0 && is_open(s[i])),
    ensures
        levels(s, i, c, close_of(s, i, c)->0),
        is_close(s[close_of(s, i, c)->0 - 1]),
    decreases s.len() - i,
{
    lemma_close_of(s, i, c);
    if s[i] == '"' {
        lemma_string_end(s, i + 1);
        let e = string_end(s, i + 1)->0;
        lemma_close_of(s, e + 1, c);
        lemma_close_levels(s, e + 1, c);
    } else if is_open(s[i]) {
        lemma_close_levels(s, i + 1, c + 1);
    } else if is_close(s[i]) {
        if c > 1 {
            lemma_close_levels(s, i + 1, c - 1);
        } else {
            assert(levels(s, i + 1, 0, i + 1));
        }
    } else {
        lemma_close_levels(s, i + 1, c);
    }
}

pub proof fn lemma_levels_agree(
    s: Seq<char>,
    t: Seq<char>,
    lo: int,
    hi: int,
    by: int,
    i: int,
    c: int,
    j: int,
)
    requires
        agree(s, t, lo, hi, by),
        lo <= i <= j <= hi,
        levels(s, i, c, j),
    ensures
        levels(t, i + by, c, j + by),
    decreases j - i,
{
    if i < j {
        assert(s[i] == t[i + by]);
        if s[i] == '"' {
            lemma_string_end(s, i + 1);
            lemma_string_agrees(s, t, lo, hi, by, i + 1);
            lemma_levels_agree(s, t, lo, hi, by, string_end(s, i + 1)->0 + 1, c, j);
        } else if is_open(s[i]) {
            lemma_levels_agree(s, t, lo, hi, by, i + 1, c + 1, j);
        } else if is_close(s[i]) {
            lemma_levels_agree(s, t, lo, hi, by, i + 1, c - 1, j);
        } else {
            lemma_levels_agree(s, t, lo, hi, by, i + 1, c, j);
        }
    }
}

proof fn lemma_levels_shorter(s: Seq<char>, i: int, c: int, j: int)
    requires
        0 <= i < j <= s.len(),
        levels(s, i, c, j),
        is_quiet(s[j - 1]),
    ensures
        levels(s, i, c, j - 1),
    decreases j - i,
{
    if i + 1 < j {
        if s[i] == '"' {
            lemma_string_end(s, i + 1);
            let e = string_end(s, i + 1)->0;
            assert(e != j - 1);
            lemma_levels_shorter(s, e + 1, c, j);
        } else if is_open(s[i]) {
            lemma_levels_shorter(s, i + 1, c + 1, j);
        } else if is_close(s[i]) {
            lemma_levels_shorter(s, i + 1, c - 1, j);
        } else {
            lemma_levels_shorter(s, i + 1, c, j);
        }
    } else {
        assert(levels(s, i + 1, c, j));
    }
}

/// A level stretch without quiet characters at its end is level.
pub proof fn lemma_levels_back(s: Seq<char>, i: int, j: int, k: int)
    requires
        0 <= i <= k <= j <= s.len(),
        levels(s, i, 0, j),
        forall|x: int| k <= x < j ==> is_quiet(#[trigger] s[x]),
    ensures
        levels(s, i, 0, k),
    decreases j - k,
{
    if k < j {
        assert(is_quiet(s[j - 1]));
        lemma_levels_shorter(s, i, 0, j);
        lemma_levels_back(s, i, j - 1, k);
    }
}

pub proof fn lemma_levels_join(s: Seq<char>, i: int, c: int, j: int, k: int)
    requires
        0 <= i <= j <= k <= s.len(),
        levels(s, i, c, j),
        levels(s, j, 0, k),
    ensures
        levels(s, i, c, k),
    decreases j - i,
{
    if i < j {
        if s[i] == '"' {
            lemma_string_end(s, i + 1);
            lemma_levels_join(s, string_end(s, i + 1)->0 + 1, c, j, k);
        } else if is_open(s[i]) {
            lemma_levels_join(s, i + 1, c + 1, j, k);
        } else if is_close(s[i]) {
            lemma_levels_join(s, i + 1, c - 1, j, k);
        } else {
            lemma_levels_join(s, i + 1, c, j, k);
        }
    }
}

/// Quiet characters are level.
pub proof fn lemma_quiet(s: Seq<char>, i: int, j: int)
    requires
        0 <= i <= j <= s.len(),
        forall|x: int| i <= x < j ==> is_quiet(#[trigger] s[x]),
    ensures
        levels(s, i, 0, j),
    decreases j - i,
{
    if i < j {
        assert(is_quiet(s[i]));
        lemma_quiet(s, i + 1, j);
    }
}

proof fn lemma_quiet_passed(s: Seq<char>, i: int, j: int, d: int, key: Seq<char>, inside: bool)
    requires
        0 <= i <= j <= s.len(),
        forall|x: int| i <= x < j ==> is_quiet(#[trigger] s[x]),
    ensures
        tally(s, i, d, key, inside) == tally(s, j, d, key, inside),
    decreases j - i,
{
    if i < j {
        assert(is_quiet(s[i]));
        lemma_quiet_passed(s, i + 1, j, d, key, inside);
    }
}

proof fn lemma_separators_agree(s: Seq<char>, t: Seq<char>, lo: int, hi: int, by: int, i: int, end: int)
    requires
        agree(s, t, lo, hi, by),
        lo <= i,
        end <= hi,
    ensures
        skip_separators(t, i + by, end + by) == skip_separators(s, i, end) + by,
    decreases end - i,
{
    if i < end {
        assert(s[i] == t[i + by]);
        if is_blank(s[i]) || s[i] == ',' {
            lemma_separators_agree(s, t, lo, hi, by, i + 1, end);
        }
    }
}

proof fn lemma_scalar_agrees(s: Seq<char>, t: Seq<char>, lo: int, hi: int, by: int, i: int, p: int)
    requires
        agree(s, t, lo, hi, by),
        lo <= i <= p < hi,
        is_close(s[p]),
    ensures
        scalar_end(t, i + by) == scalar_end(s, i) + by,
        scalar_end(s, i) <= p,
    decreases p - i,
{
    assert(s[i] == t[i + by]);
    if !is_delimiter(s[i]) {
        lemma_scalar_agrees(s, t, lo, hi, by, i + 1, p);
    }
}

/// An array that stands in both texts has as many elements in both.
proof fn lemma_spans_agree(s: Seq<char>, t: Seq<char>, lo: int, hi: int, by: int, i: int, end: int)
    requires
        agree(s, t, lo, hi, by),
        lo <= i <= end <= hi,
        lo < end,
        is_close(s[end - 1]),
        spans_from(s, i, end) is Some,
    ensures
        spans_from(t, i + by, end + by) is Some,
        spans_from(t, i + by, end + by)->0.len() == spans_from(s, i, end)->0.len(),
    decreases end - i,
{
    let at = skip_separators(s, i, end);
    lemma_skip_separators(s, i, end);
    lemma_separators_agree(s, t, lo, hi, by, i, end);
    if at < end {
        assert(s[at] == t[at + by]);
        if s[at] != ']' {
            let stop = value_end(s, at)->0;
            lemma_value_end(s, at);
            if s[at] == '"' {
                lemma_string_agrees(s, t, lo, hi, by, at + 1);
            } else if is_open(s[at]) {
                lemma_close_agrees(s, t, lo, hi, by, at, 0);
            } else {
                lemma_scalar_agrees(s, t, lo, hi, by, at, end - 1);
            }
            assert(value_end(t, at + by) == Some(stop + by));
            lemma_spans_agree(s, t, lo, hi, by, stop, end);
        }
    }
}

proof fn lemma_bare_string(t: Seq<char>, p: int, e: int)
    requires
        0 <= p <= e < t.len(),
        forall|x: int| p <= x < e ==> (#[trigger] t[x]) != '"' && t[x] != '\\',
        t[e] == '"',
    ensures
        string_end(t, p) == Some(e),
    decreases e - p,
{
    if p < e {
        lemma_bare_string(t, p + 1, e);
    }
}

/// The text of a member whose value is an array of one element, with quiet characters behind it.
pub open spec fn member_item(name: Seq<char>, v: Seq<char>, tail: Seq<char>) -> Seq<char> {
    seq!['"'] + name + seq!['"', ':', ' ', '['] + v + seq![']'] + tail
}

/// A walk passes a member that was put in, and meets its key.
proof fn lemma_member_passed(
    t: Seq<char>,
    p: int,
    name: Seq<char>,
    v: Seq<char>,
    tail: Seq<char>,
    d: int,
    key: Seq<char>,
    inside: bool,
)
    requires
        0 <= p,
        1 <= d,
        p + member_item(name, v, tail).len() <= t.len(),
        agree(member_item(name, v, tail), t, 0, member_item(name, v, tail).len() as int, p),
        is_bare_key(name),
        levels(v, 0, 0, v.len() as int),
        forall|x: int| 0 <= x < tail.len() ==> is_quiet(#[trigger] tail[x]),
        d >= 2 || name != key,
    ensures
        tally(t, p, d, key, inside) == tally(
            t,
            p + member_item(name, v, tail).len(),
            d,
            key,
            inside,
        ),
{
    let w = member_item(name, v, tail);
    let n = name.len() as int;
    let m = v.len() as int;
    let e = p + 1 + n;
    assert(w[0] == '"' && w[1 + n] == '"' && w[2 + n] == ':' && w[3 + n] == ' ' && w[4 + n] == '['
        && w[5 + n + m] == ']');
    assert(t[p] == '"' && t[e] == '"' && t[e + 1] == ':' && t[e + 2] == ' ' && t[e + 3] == '['
        && t[e + 4 + m] == ']') by {
        assert(w[0] == t[0 + p]);
        assert(w[1 + n] == t[1 + n + p]);
        assert(w[2 + n] == t[2 + n + p]);
        assert(w[3 + n] == t[3 + n + p]);
        assert(w[4 + n] == t[4 + n + p]);
        assert(w[5 + n + m] == t[5 + n + m + p]);
    }
    assert forall|x: int| p + 1 <= x < e implies (#[trigger] t[x]) != '"' && t[x] != '\\' && t[x]
        == name[x - p - 1] by {
        assert(w[x - p] == t[x - p + p]);
        assert(w[x - p] == name[x - p - 1]);
    }
    lemma_bare_string(t, p + 1, e);
    let q = Quoted { start: p + 1, end: e, depth: d };
    assert(t.subrange(p + 1, e) =~= name);
    assert(noted(t, q, key).named =~= nothing().named);
    assert(noted(t, q, key) == nothing());
    lemma_nothing_added(tally(t, e + 1, d, key, inside));
    assert(tally(t, e + 1, d, key, inside) == tally(t, e + 4, d + 1, key, inside)) by {
        assert(tally(t, e + 1, d, key, inside) == tally(t, e + 2, d, key, inside));
        assert(tally(t, e + 2, d, key, inside) == tally(t, e + 3, d, key, inside));
    }
    assert(agree(v, t, 0, m, e + 4)) by {
        assert forall|x: int| 0 <= x < m implies #[trigger] v[x] == t[x + (e + 4)] by {
            assert(w[x + 5 + n] == v[x]);
            assert(w[x + 5 + n] == t[x + 5 + n + p]);
        }
    }
    lemma_levels_agree(v, t, 0, m, e + 4, 0, 0, m);
    lemma_level_passed(t, e + 4, 0, e + 4 + m, d + 1, key, inside);
    let stop = p + w.len();
    assert forall|x: int| e + 5 + m <= x < stop implies is_quiet(#[trigger] t[x]) by {
        assert(w[x - p] == t[x - p + p]);
        assert(w[x - p] == tail[x - p - 6 - n - m]);
    }
    lemma_quiet_passed(t, e + 5 + m, stop, d, key, inside);
}

/// A walk finds the array under `name` in the object under `outer`, with `n` elements.
pub open spec fn located(s: Seq<char>, outer: Seq<char>, name: Seq<char>, n: nat) -> bool {
    match object_of_key(s, outer) {
        Some(open) => match value_of_key(s, open, name) {
            Some(span) => s[span.0] == '[' && match spans_from(s, span.0 + 1, span.1) {
                Some(spans) => spans.len() == n,
                None => false,
            },
            None => false,
        },
        None => false,
    }
}

/// The key that a walk over the whole text finds.
proof fn lemma_root_key(s: Seq<char>, outer: Seq<char>) -> (q: Quoted)
    requires
        object_of_key(s, outer) is Some,
    ensures
        tally(s, 0, 0, outer, false) == Some(Tally { escaped: false, named: seq![q] }),
        value_at(s, q) == object_of_key(s, outer)->0,
        value_at(s, q) < s.len(),
        s[value_at(s, q)] == '{',
{
    lemma_root_tally(s, 0, 0, outer);
    let qs = quoted_from(s, 0, 0)->0;
    let named = keys_named(s, qs, outer);
    assert(named =~= seq![named[0]]);
    named[0]
}

/// The key that a walk over an object finds, where its value is an array.
proof fn lemma_inner_key(s: Seq<char>, open: int, key: Seq<char>) -> (q: Quoted)
    requires
        value_of_key(s, open, key) is Some,
        s[(value_of_key(s, open, key)->0).0] == '[',
    ensures
        tally(s, open, 0, key, true) == Some(Tally { escaped: false, named: seq![q] }),
        value_of_key(s, open, key) == Some((value_at(s, q), value_end(s, value_at(s, q))->0)),
        value_end(s, value_at(s, q)) is Some,
        s[value_at(s, q)] == '[',
        0 <= open,
        is_key(s, q, key),
        open < q.start <= q.end,
        q.end + 1 < value_at(s, q) < value_end(s, value_at(s, q))->0 <= s.len(),
        is_close(s[value_end(s, value_at(s, q))->0 - 1]),
{
    let qs = members_from(s, open, 0, key)->0;
    let named = keys_named(s, qs, key);
    assert(named =~= seq![named[0]]);
    let q = named[0];
    lemma_value_of_key(s, open, key);
    lemma_inside_tally(s, open, 0, key);
    let at = value_at(s, q);
    assert(tally(s, open, 0, key, true)->0.named.contains(q)) by {
        assert(tally(s, open, 0, key, true)->0.named[0] == q);
    }
    let pre = lemma_split(s, s, open, 0, key, q, key, true);
    lemma_found_value(s, open, key, q);
    lemma_value_end(s, at);
    lemma_close_levels(s, at, 0);
    q
}

/// The value of a member that was found ends.
proof fn lemma_found_value(s: Seq<char>, open: int, key: Seq<char>, q: Quoted)
    requires
        value_of_key(s, open, key) is Some,
        keys_named(s, members_from(s, open, 0, key)->0, key) == seq![q],
    ensures
        value_end(s, value_at(s, q)) is Some,
{
    let qs = members_from(s, open, 0, key)->0;
    let p = |x: Quoted| is_key(s, x, key);
    lemma_keys_have_values(s, open, 0, key);
    let named = qs.filter(p);
    assert(named[0] == q);
    assert(named.contains(q));
    qs.lemma_filter_contains_rev(p, q);
    let k = choose|k: int| 0 <= k < qs.len() && qs[k] == q;
    qs.lemma_filter_pred(p, 0);
    assert(is_key(s, qs[k], key));
}

/// An array that stands in both texts, and whose key a walk over the second still finds, is
/// located there.
proof fn lemma_located_again(
    s: Seq<char>,
    t: Seq<char>,
    lo: int,
    hi: int,
    by: int,
    open: int,
    key: Seq<char>,
    q: Quoted,
)
    requires
        agree(s, t, lo, hi, by),
        lo <= q.start <= q.end,
        q.end + 1 < value_at(s, q) < value_end(s, value_at(s, q))->0 <= hi,
        value_end(s, value_at(s, q)) is Some,
        s[value_at(s, q)] == '[',
        is_close(s[value_end(s, value_at(s, q))->0 - 1]),
        spans_from(s, value_at(s, q) + 1, value_end(s, value_at(s, q))->0) is Some,
        0 <= open,
        tally(t, open, 0, key, true) == Some(Tally { escaped: false, named: seq![moved(q, by)] }),
    ensures
        value_of_key(t, open, key) is Some,
        ({
            let span = value_of_key(t, open, key)->0;
            &&& t[span.0] == '['
            &&& spans_from(t, span.0 + 1, span.1) is Some
            &&& spans_from(t, span.0 + 1, span.1)->0.len() == spans_from(
                s,
                value_at(s, q) + 1,
                value_end(s, value_at(s, q))->0,
            )->0.len()
        }),
{
    let at = value_at(s, q);
    let after = value_end(s, at)->0;
    let m = moved(q, by);
    lemma_value_at_agrees(s, t, lo, hi, by, q);
    assert(s[at] == t[at + by]);
    lemma_close_agrees(s, t, lo, hi, by, at, 0);
    assert(value_end(t, at + by) == Some(after + by));
    lemma_spans_agree(s, t, lo, hi, by, at + 1, after);
    lemma_members_tally(t, open, 0, key);
    let qs = members_from(t, open, 0, key)->0;
    assert(keys_named(t, qs, key) == seq![m]);
    assert(value_of_key(t, open, key) == Some((at + by, after + by)));
    assert(at + by + 1 == at + 1 + by);
}

/// The walk over the whole text finds the key where it did, if behind an edit in its object it
/// finds what it found, moved.
proof fn lemma_root_again(
    s: Seq<char>,
    t: Seq<char>,
    outer: Seq<char>,
    q: Quoted,
    pre: Tally,
    rest: Tally,
    by: int,
    from: int,
)
    requires
        object_of_key(s, outer) is Some,
        tally(s, 0, 0, outer, false) == Some(Tally { escaped: false, named: seq![q] }),
        value_at(s, q) == object_of_key(s, outer)->0,
        value_at(s, q) < s.len(),
        agree(s, t, 0, value_at(s, q) + 1, 0),
        s[value_at(s, q)] == '{',
        q.start <= q.end < value_at(s, q) <= from,
        0 <= q.start,
        tally(s, 0, 0, outer, false) == plus(pre, Some(rest)),
        tally(t, 0, 0, outer, false) == plus(pre, Some(moved_all(rest, by))),
        forall|k: int| 0 <= k < rest.named.len() ==> (#[trigger] rest.named[k]).start > from,
    ensures
        object_of_key(t, outer) == object_of_key(s, outer),
{
    let at = value_at(s, q);
    assert(pre.named + rest.named == seq![q]);
    assert(pre.named.len() + rest.named.len() == 1);
    if rest.named.len() > 0 {
        let k = pre.named.len() as int;
        assert((pre.named + rest.named)[k] == rest.named[0]);
        assert(rest.named[0] == q);
    }
    assert(pre.named + rest.named =~= pre.named);
    assert(pre.named + moved_all(rest, by).named =~= pre.named);
    lemma_root_tally(t, 0, 0, outer);
    let qs = quoted_from(t, 0, 0)->0;
    assert(keys_named(t, qs, outer) == seq![q]);
    assert(moved(q, 0) == q);
    lemma_value_at_agrees(s, t, 0, at + 1, 0, q);
    assert(s[at] == t[at + 0]);
}

proof fn lemma_splice_agrees(s: Seq<char>, from: int, to: int, w: Seq<char>)
    requires
        0 <= from <= to <= s.len(),
    ensures
        agree(s, splice_of(s, from, to, w), 0, from, 0),
        agree(s, splice_of(s, from, to, w), to, s.len() as int, w.len() - (to - from)),
        agree(w, splice_of(s, from, to, w), 0, w.len() as int, from),
        splice_of(s, from, to, w).len() == s.len() + w.len() - (to - from),
{
}

/// What is taken out of the array under `other` and what is put in are level, and so is what stands
/// before them.
pub open spec fn edits_inside(
    s: Seq<char>,
    open: int,
    other: Seq<char>,
    from: int,
    to: int,
    w: Seq<char>,
) -> bool {
    &&& value_of_key(s, open, other) is Some
    &&& ({
        let span = value_of_key(s, open, other)->0;
        &&& s[span.0] == '['
        &&& span.0 < from <= to <= span.1
        &&& levels(s, span.0 + 1, 0, from)
    })
    &&& levels(s, from, 0, to)
    &&& levels(w, 0, 0, w.len() as int)
}

/// A walk passes an edited array, in the text as it was and as it is.
proof fn lemma_edit_passed(
    s: Seq<char>,
    open: int,
    other: Seq<char>,
    from: int,
    to: int,
    w: Seq<char>,
    d: int,
    key: Seq<char>,
    inside: bool,
)
    requires
        edits_inside(s, open, other, from, to, w),
        1 <= d,
        to <= s.len(),
        0 <= (value_of_key(s, open, other)->0).0,
    ensures
        ({
            let t = splice_of(s, from, to, w);
            let p = (value_of_key(s, open, other)->0).0;
            &&& tally(s, p, d, key, inside) == tally(s, to, d + 1, key, inside)
            &&& tally(t, p, d, key, inside) == tally(t, from + w.len(), d + 1, key, inside)
        }),
{
    let t = splice_of(s, from, to, w);
    let p = (value_of_key(s, open, other)->0).0;
    lemma_splice_agrees(s, from, to, w);
    lemma_levels_agree(s, t, 0, from, 0, p + 1, 0, from);
    lemma_levels_agree(w, t, 0, w.len() as int, from, 0, 0, w.len() as int);
    assert(s[p] == t[p + 0]);
    lemma_level_passed(s, p + 1, 0, from, d + 1, key, inside);
    lemma_level_passed(s, from, 0, to, d + 1, key, inside);
    lemma_level_passed(t, p + 1, 0, from, d + 1, key, inside);
    lemma_level_passed(t, from, 0, from + w.len(), d + 1, key, inside);
}

/// An edit inside an array does not move a walk over the whole text to the object around it.
proof fn lemma_edit_root(
    s: Seq<char>,
    outer: Seq<char>,
    other: Seq<char>,
    from: int,
    to: int,
    w: Seq<char>,
)
    requires
        object_of_key(s, outer) is Some,
        edits_inside(s, object_of_key(s, outer)->0, other, from, to, w),
    ensures
        object_of_key(splice_of(s, from, to, w), outer) == object_of_key(s, outer),
{
    let t = splice_of(s, from, to, w);
    let by = w.len() - (to - from);
    let open = object_of_key(s, outer)->0;
    let qh = lemma_root_key(s, outer);
    let qf = lemma_inner_key(s, open, other);
    let pf = value_at(s, qf);
    lemma_splice_agrees(s, from, to, w);
    assert(agree(s, t, 0, pf + 1, 0));
    assert(agree(s, t, 0, open + 1, 0));
    assert(tally(s, 0, 0, outer, false)->0.named[0] == qh);
    assert(tally(s, open, 0, other, true)->0.named[0] == qf);
    assert(s[open] == t[open + 0]);
    let pre = lemma_split(s, t, 0, 0, outer, qh, outer, false);
    assert(tally(s, open + 1, 1, other, true) == tally(s, open, 0, other, true));
    lemma_split_deeper(s, t, open + 1, 1, other, qf, outer);
    lemma_edit_passed(s, open, other, from, to, w, 2, outer, false);
    assert(tally(s, open, 1, outer, false) == tally(s, to, 3, outer, false));
    assert(tally(t, open, 1, outer, false) == tally(t, to + by, 3, outer, false));
    lemma_tail(s, t, to, by, to, 3, outer, false);
    lemma_root_again(s, t, outer, qh, pre, tally(s, to, 3, outer, false)->0, by, to);
}

/// A member whose key comes before another's ends before that key.
proof fn lemma_ends_before(
    s: Seq<char>,
    open: int,
    key: Seq<char>,
    qk: Quoted,
    other: Seq<char>,
    qf: Quoted,
)
    requires
        0 <= open,
        tally(s, open, 0, key, true) == Some(Tally { escaped: false, named: seq![qk] }),
        tally(s, open, 0, other, true) == Some(Tally { escaped: false, named: seq![qf] }),
        is_key(s, qk, key),
        0 <= qk.start <= qk.end < qf.start <= qf.end,
        value_end(s, value_at(s, qk)) is Some,
        s[value_at(s, qk)] == '[',
    ensures
        value_end(s, value_at(s, qk))->0 < qf.start,
{
    let at = value_at(s, qk);
    let after = value_end(s, at)->0;
    lemma_value_end(s, at);
    assert(tally(s, open, 0, key, true)->0.named[0] == qk);
    let first = lemma_split(s, s, open, 0, key, qk, other, true);
    let rest = tally(s, at, 1, other, true)->0;
    assert(first.named + rest.named == seq![qf]);
    if first.named.len() > 0 {
        assert((first.named + rest.named)[0] == first.named[0]);
        assert(false);
    }
    assert((first.named + rest.named)[0] == rest.named[0]);
    lemma_to_value(s, qk, 1, key, other, true);
    lemma_over_value(s, qk, key, other, true);
    lemma_named_behind(s, after, 1, other, true);
}

/// An edit inside the array of one member does not move a walk to the array of another.
#[verifier::rlimit(30)]
pub proof fn lemma_edit_elsewhere(
    s: Seq<char>,
    outer: Seq<char>,
    key: Seq<char>,
    n: nat,
    other: Seq<char>,
    from: int,
    to: int,
    w: Seq<char>,
)
    requires
        located(s, outer, key, n),
        key != other,
        edits_inside(s, object_of_key(s, outer)->0, other, from, to, w),
    ensures
        located(splice_of(s, from, to, w), outer, key, n),
{
    let t = splice_of(s, from, to, w);
    let by = w.len() - (to - from);
    let open = object_of_key(s, outer)->0;
    lemma_edit_root(s, outer, other, from, to, w);
    let qk = lemma_inner_key(s, open, key);
    let qf = lemma_inner_key(s, open, other);
    let pf = value_at(s, qf);
    lemma_splice_agrees(s, from, to, w);
    assert(agree(s, t, 0, pf + 1, 0));
    assert(tally(s, open, 0, other, true)->0.named[0] == qf);
    let pre = lemma_split(s, t, open, 0, other, qf, key, true);
    lemma_edit_passed(s, open, other, from, to, w, 1, key, true);
    assert(tally(t, pf, 1, key, true) == tally(t, to + by, 2, key, true));
    let rest = tally(s, to, 2, key, true)->0;
    lemma_tail(s, t, to, by, to, 2, key, true);
    assert(pre.named + rest.named == seq![qk]);
    if rest.named.len() > 0 {
        assert((pre.named + rest.named)[pre.named.len() as int] == rest.named[0]);
        assert(pre.named.len() == 0);
        assert(rest.named[0] == qk);
        assert(pre.named + moved_all(rest, by).named =~= seq![moved(qk, by)]);
        lemma_located_again(s, t, to, s.len() as int, by, open, key, qk);
    } else {
        assert((pre.named + rest.named)[0] == pre.named[0]);
        assert(pre.named[0] == qk);
        assert(qk != qf);
        lemma_ends_before(s, open, key, qk, other, qf);
        assert(moved(qk, 0) == qk);
        assert(pre.named + moved_all(rest, by).named =~= seq![qk]);
        lemma_located_again(s, t, 0, from, 0, open, key, qk);
    }
}

/// A member put at the front of an object does not move a walk to the array of another.
#[verifier::rlimit(30)]
pub proof fn lemma_member_elsewhere(
    s: Seq<char>,
    outer: Seq<char>,
    key: Seq<char>,
    n: nat,
    other: Seq<char>,
    v: Seq<char>,
    tail: Seq<char>,
)
    requires
        located(s, outer, key, n),
        key != other,
        is_bare_key(other),
        levels(v, 0, 0, v.len() as int),
        forall|x: int| 0 <= x < tail.len() ==> is_quiet(#[trigger] tail[x]),
    ensures
        ({
            let at = object_of_key(s, outer)->0 + 1;
            located(splice_of(s, at, at, member_item(other, v, tail)), outer, key, n)
        }),
{
    let open = object_of_key(s, outer)->0;
    let a = open + 1;
    let w = member_item(other, v, tail);
    let t = splice_of(s, a, a, w);
    let by = w.len() as int;
    let qh = lemma_root_key(s, outer);
    let qk = lemma_inner_key(s, open, key);
    lemma_splice_agrees(s, a, a, w);
    assert(tally(s, 0, 0, outer, false)->0.named[0] == qh);
    assert(tally(s, open, 0, key, true)->0.named[0] == qk);
    assert(s[open] == t[open + 0]);
    let pre = lemma_split(s, t, 0, 0, outer, qh, outer, false);
    lemma_member_passed(t, a, other, v, tail, 2, outer, false);
    lemma_tail(s, t, a, by, a, 2, outer, false);
    assert(tally(s, open, 1, outer, false) == tally(s, a, 2, outer, false));
    assert(tally(t, open, 1, outer, false) == tally(t, a, 2, outer, false));
    lemma_root_again(s, t, outer, qh, pre, tally(s, a, 2, outer, false)->0, by, a);
    lemma_member_passed(t, a, other, v, tail, 1, key, true);
    assert(tally(s, open, 0, key, true) == tally(s, a, 1, key, true));
    assert(tally(t, open, 0, key, true) == tally(t, a, 1, key, true));
    lemma_tail(s, t, a, by, a, 1, key, true);
    lemma_named_behind(s, a, 1, key, true);
    assert(moved_all(tally(s, a, 1, key, true)->0, by).named =~= seq![moved(qk, by)]);
    lemma_located_again(s, t, a, s.len() as int, by, open, key, qk);
}

/// A level stretch of one text nests in the other as it does in its own, and as many brackets
/// deeper as stand around it.
proof fn lemma_nests_agree(
    v: Seq<char>,
    t: Seq<char>,
    by: int,
    i: int,
    c: int,
    d: int,
    most: int,
    e: int,
)
    requires
        agree(v, t, 0, v.len() as int, by),
        0 <= i <= v.len(),
        levels(v, i, c, v.len() as int),
        nests(v, i, d, most),
        nests(t, v.len() + by, d - c + e, most + e),
    ensures
        nests(t, i + by, d + e, most + e),
    decreases v.len() - i,
{
    let n = v.len() as int;
    if i < n {
        assert(v[i] == t[i + by]);
        if v[i] == '"' {
            lemma_string_end(v, i + 1);
            lemma_string_agrees(v, t, 0, n, by, i + 1);
            lemma_nests_agree(v, t, by, string_end(v, i + 1)->0 + 1, c, d, most, e);
        } else if is_open(v[i]) {
            lemma_nests_agree(v, t, by, i + 1, c + 1, d + 1, most, e);
        } else if is_close(v[i]) {
            lemma_nests_agree(v, t, by, i + 1, c - 1, d - 1, most, e);
        } else {
            lemma_nests_agree(v, t, by, i + 1, c, d, most, e);
        }
    }
}

/// A level text between square brackets nests one deeper.
pub proof fn lemma_array_nests(v: Seq<char>, most: nat)
    requires
        levels(v, 0, 0, v.len() as int),
        nests_within(v, most),
    ensures
        nests_within("["@ + v + "]"@, most + 1),
{
    reveal_strlit("[");
    reveal_strlit("]");
    let t = "["@ + v + "]"@;
    let n = v.len() as int;
    assert(t[0] == '[' && t[n + 1] == ']');
    assert(nests(t, n + 2, 0, (most + 1) as int));
    assert(nests(t, n + 1, 1, (most + 1) as int));
    assert(agree(v, t, 0, n, 1));
    lemma_nests_agree(v, t, 1, 0, 0, 0, most as int, 1);
}

/// An object with one member nests one deeper than the value of the member, a level text.
pub proof fn lemma_object_nests(key: Seq<char>, v: Seq<char>, most: nat)
    requires
        levels(v, 0, 0, v.len() as int),
        nests_within(v, most),
        is_bare_key(key),
    ensures
        nests_within(one_member_text(""@, key, v, ""@), most + 1),
{
    reveal_strlit("");
    reveal_strlit("{");
    reveal_strlit("}");
    reveal_strlit("\"");
    reveal_strlit("\": ");
    let t = one_member_text(""@, key, v, ""@);
    let k = key.len() as int;
    let n = v.len() as int;
    assert(t.len() == k + n + 6);
    assert(t[0] == '{' && t[1] == '"' && t[2 + k] == '"' && t[3 + k] == ':' && t[4 + k] == ' ' && t[5
        + k + n] == '}');
    assert forall|x: int| 2 <= x < 2 + k implies (#[trigger] t[x]) != '"' && t[x] != '\\' by {
        assert(t[x] == key[x - 2]);
    }
    lemma_bare_string(t, 2, 2 + k);
    assert(nests(t, 6 + k + n, 0, (most + 1) as int));
    assert(nests(t, 5 + k + n, 1, (most + 1) as int));
    assert(agree(v, t, 0, n, 5 + k));
    lemma_nests_agree(v, t, 5 + k, 0, 0, 0, most as int, 1);
    assert(nests(t, 4 + k, 1, (most + 1) as int));
    assert(nests(t, 3 + k, 1, (most + 1) as int));
    assert(nests(t, 1, 1, (most + 1) as int));
}

} // verus!
