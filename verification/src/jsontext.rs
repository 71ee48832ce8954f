//! Walks over the raw text of a JSON document, and edits that leave every other character where
//! it was.
//!
//! Nothing here interprets a document: a walk follows strings, their escapes and the nesting of
//! brackets, and gives up on whatever it is not certain of.

use vstd::prelude::*;

use crate::text::chars_of;
use crate::text::opt_int;
use crate::text::string_between;

verus! {

/// ASCII whitespace: space, tab, line feed, form feed and carriage return.
pub open spec fn is_blank(c: char) -> bool {
    c == ' ' || c == '\t' || c == '\n' || c == '\x0c' || c == '\r'
}

pub fn blank(c: char) -> (r: bool)
    ensures
        r == is_blank(c),
{
    c == ' ' || c == '\t' || c == '\n' || c == '\x0c' || c == '\r'
}

pub open spec fn is_open(c: char) -> bool {
    c == '{' || c == '['
}

pub open spec fn is_close(c: char) -> bool {
    c == '}' || c == ']'
}

/// Where the string ends whose body begins at `i`: the index of the first quote that no
/// backslash escapes.
pub open spec fn string_end(s: Seq<char>, i: int) -> Option<int>
    decreases
            if i < s.len() {
                s.len() - i
            } else {
                0
            },
{
    if i < 0 || i >= s.len() {
        None
    } else if s[i] == '\\' {
        string_end(s, i + 2)
    } else if s[i] == '"' {
        Some(i)
    } else {
        string_end(s, i + 1)
    }
}

pub proof fn lemma_string_end(s: Seq<char>, i: int)
    requires
        string_end(s, i) is Some,
    ensures
        0 <= i <= string_end(s, i)->0 < s.len(),
        s[string_end(s, i)->0] == '"',
    decreases
            if i < s.len() {
                s.len() - i
            } else {
                0
            },
{
    if s[i] == '\\' {
        lemma_string_end(s, i + 2);
    } else if s[i] != '"' {
        lemma_string_end(s, i + 1);
    }
}

/// The index of the quote that closes the string whose body begins at `start`.
pub fn scan_string(s: &[char], start: usize) -> (r: Option<usize>)
    ensures
        opt_int(r) == string_end(s@, start as int),
        r matches Some(e) ==> start <= e < s@.len(),
{
    let n: usize = s.len();
    let mut i: usize = start;
    while i < n
        invariant
            n == s@.len(),
            start <= i,
            string_end(s@, start as int) == string_end(s@, i as int),
        decreases n - i,
    {
        if s[i] == '\\' {
            if n - i <= 1 {
                assert(string_end(s@, i + 2) is None);
                return None;
            }
            i += 2;
        } else if s[i] == '"' {
            return Some(i);
        } else {
            i += 1;
        }
    }
    None
}

/// The first index from `i` on that does not hold ASCII whitespace.
pub open spec fn skip_blank(s: Seq<char>, i: int) -> int
    decreases s.len() - i,
{
    if 0 <= i < s.len() && is_blank(s[i]) {
        skip_blank(s, i + 1)
    } else {
        i
    }
}

pub proof fn lemma_skip_blank(s: Seq<char>, i: int)
    ensures
        i <= skip_blank(s, i),
        i <= s.len() ==> skip_blank(s, i) <= s.len(),
        0 <= i && skip_blank(s, i) < s.len() ==> !is_blank(s[skip_blank(s, i)]),
    decreases s.len() - i,
{
    if 0 <= i < s.len() && is_blank(s[i]) {
        lemma_skip_blank(s, i + 1);
    }
}

pub fn after_blank(s: &[char], i: usize) -> (r: usize)
    requires
        i <= s@.len(),
    ensures
        r == skip_blank(s@, i as int),
        i <= r <= s@.len(),
{
    let mut j: usize = i;
    while j < s.len() && blank(s[j])
        invariant
            i <= j <= s@.len(),
            skip_blank(s@, i as int) == skip_blank(s@, j as int),
        decreases s@.len() - j,
    {
        j += 1;
    }
    j
}

/// One past the bracket that closes the `depth` brackets open at `i`.
pub open spec fn close_of(s: Seq<char>, i: int, depth: int) -> Option<int>
    decreases s.len() - i,
{
    if i < 0 || i >= s.len() {
        None
    } else if s[i] == '"' {
        match string_end(s, i + 1) {
            Some(e) => {
                proof {
                    lemma_string_end(s, i + 1);
                }
                close_of(s, e + 1, depth)
            },
            None => None,
        }
    } else if is_open(s[i]) {
        close_of(s, i + 1, depth + 1)
    } else if is_close(s[i]) {
        if depth <= 0 {
            None
        } else if depth == 1 {
            Some(i + 1)
        } else {
            close_of(s, i + 1, depth - 1)
        }
    } else {
        close_of(s, i + 1, depth)
    }
}

pub proof fn lemma_close_of(s: Seq<char>, i: int, depth: int)
    requires
        close_of(s, i, depth) is Some,
    ensures
        0 <= i < close_of(s, i, depth)->0 <= s.len(),
    decreases s.len() - i,
{
    if s[i] == '"' {
        lemma_string_end(s, i + 1);
        lemma_close_of(s, string_end(s, i + 1)->0 + 1, depth);
    } else if is_open(s[i]) {
        lemma_close_of(s, i + 1, depth + 1);
    } else if is_close(s[i]) {
        if depth > 1 {
            lemma_close_of(s, i + 1, depth - 1);
        }
    } else {
        lemma_close_of(s, i + 1, depth);
    }
}

/// A character that ends a number or a literal name.
pub open spec fn is_delimiter(c: char) -> bool {
    c == ',' || is_close(c) || is_blank(c)
}

/// The first index from `i` on that ends a number or a literal name.
pub open spec fn scalar_end(s: Seq<char>, i: int) -> int
    decreases s.len() - i,
{
    if 0 <= i < s.len() && !is_delimiter(s[i]) {
        scalar_end(s, i + 1)
    } else {
        i
    }
}

pub proof fn lemma_scalar_end(s: Seq<char>, i: int)
    ensures
        i <= scalar_end(s, i),
        i <= s.len() ==> scalar_end(s, i) <= s.len(),
    decreases s.len() - i,
{
    if 0 <= i < s.len() && !is_delimiter(s[i]) {
        lemma_scalar_end(s, i + 1);
    }
}

/// One past the end of the value that begins at `i`: a string, a bracketed value, or a run up to
/// the next delimiter.
pub open spec fn value_end(s: Seq<char>, i: int) -> Option<int> {
    if i < 0 || i >= s.len() {
        None
    } else if s[i] == '"' {
        match string_end(s, i + 1) {
            Some(e) => Some(e + 1),
            None => None,
        }
    } else if is_open(s[i]) {
        close_of(s, i, 0)
    } else if scalar_end(s, i) > i {
        Some(scalar_end(s, i))
    } else {
        None
    }
}

pub proof fn lemma_value_end(s: Seq<char>, i: int)
    requires
        value_end(s, i) is Some,
    ensures
        0 <= i < value_end(s, i)->0 <= s.len(),
{
    if s[i] == '"' {
        lemma_string_end(s, i + 1);
    } else if is_open(s[i]) {
        lemma_close_of(s, i, 0);
    } else {
        lemma_scalar_end(s, i);
    }
}

/// One past the end of the value that begins at `start`.
pub fn json_value_extent(s: &[char], start: usize) -> (r: Option<usize>)
    ensures
        opt_int(r) == value_end(s@, start as int),
        r matches Some(e) ==> start < e <= s@.len(),
{
    let n: usize = s.len();
    if start >= n {
        return None;
    }
    if s[start] == '"' {
        return match scan_string(s, start + 1) {
            Some(e) => Some(e + 1),
            None => None,
        };
    }
    if s[start] == '{' || s[start] == '[' {
        let mut depth: usize = 0;
        let mut i: usize = start;
        while i < n
            invariant
                n == s@.len(),
                start <= i <= n,
                depth <= i - start,
                value_end(s@, start as int) == close_of(s@, start as int, 0),
                close_of(s@, start as int, 0) == close_of(s@, i as int, depth as int),
            decreases n - i,
        {
            if s[i] == '"' {
                match scan_string(s, i + 1) {
                    Some(e) => {
                        i = e + 1;
                    },
                    None => {
                        return None;
                    },
                }
            } else if s[i] == '{' || s[i] == '[' {
                depth += 1;
                i += 1;
            } else if s[i] == '}' || s[i] == ']' {
                if depth == 0 {
                    return None;
                }
                depth -= 1;
                i += 1;
                if depth == 0 {
                    return Some(i);
                }
            } else {
                i += 1;
            }
        }
        return None;
    }
    let mut i: usize = start;
    while i < n && !(s[i] == ',' || s[i] == '}' || s[i] == ']') && !blank(s[i])
        invariant
            n == s@.len(),
            start <= i <= n,
            scalar_end(s@, start as int) == scalar_end(s@, i as int),
        decreases n - i,
    {
        i += 1;
    }
    if i > start {
        Some(i)
    } else {
        None
    }
}

/// A quoted string met on a walk: its body is `start..end`, inside `depth` open brackets.
pub struct Quoted {
    pub start: int,
    pub end: int,
    pub depth: int,
}

/// The strings met from `i` on with `depth` brackets open, to the end of the text. `None` where
/// a string does not end or a bracket closes that none opened.
pub open spec fn quoted_from(s: Seq<char>, i: int, depth: int) -> Option<Seq<Quoted>>
    decreases s.len() - i,
{
    if i < 0 || i >= s.len() {
        Some(Seq::empty())
    } else if s[i] == '"' {
        match string_end(s, i + 1) {
            Some(e) => {
                proof {
                    lemma_string_end(s, i + 1);
                }
                led_by(seq![Quoted { start: i + 1, end: e, depth }], quoted_from(s, e + 1, depth))
            },
            None => None,
        }
    } else if is_open(s[i]) {
        quoted_from(s, i + 1, depth + 1)
    } else if is_close(s[i]) {
        if depth <= 0 {
            None
        } else {
            quoted_from(s, i + 1, depth - 1)
        }
    } else {
        quoted_from(s, i + 1, depth)
    }
}

/// `head` put before a walk that succeeded.
pub open spec fn led_by(head: Seq<Quoted>, rest: Option<Seq<Quoted>>) -> Option<Seq<Quoted>> {
    match rest {
        Some(r) => Some(head + r),
        None => None,
    }
}

/// A string directly inside the outermost brackets whose body holds a backslash.
pub open spec fn is_escaped(s: Seq<char>, q: Quoted) -> bool {
    q.depth == 1 && s.subrange(q.start, q.end).contains('\\')
}

/// The text of the string is `key`, it stands directly inside the outermost brackets, and a
/// colon follows.
pub open spec fn is_key(s: Seq<char>, q: Quoted, key: Seq<char>) -> bool {
    &&& q.depth == 1
    &&& s.subrange(q.start, q.end) == key
    &&& skip_blank(s, q.end + 1) < s.len()
    &&& s[skip_blank(s, q.end + 1)] == ':'
}

/// Where the value of the key `q` begins.
pub open spec fn value_at(s: Seq<char>, q: Quoted) -> int {
    skip_blank(s, skip_blank(s, q.end + 1) + 1)
}

/// The strings among `qs` that are the key `key`.
pub open spec fn keys_named(s: Seq<char>, qs: Seq<Quoted>, key: Seq<char>) -> Seq<Quoted> {
    qs.filter(|q: Quoted| is_key(s, q, key))
}

pub open spec fn any_escaped(s: Seq<char>, qs: Seq<Quoted>) -> bool {
    exists|k: int| 0 <= k < qs.len() && is_escaped(s, #[trigger] qs[k])
}

/// The only string among `qs` that is the key `key`; none where an escaped string stands beside
/// it, and none where there are two.
pub open spec fn sole_key(s: Seq<char>, qs: Seq<Quoted>, key: Seq<char>) -> Option<Quoted> {
    let named = keys_named(s, qs, key);
    if any_escaped(s, qs) || named.len() != 1 {
        None
    } else {
        Some(named[0])
    }
}

/// Where the object opens that is the value of the key `q`.
pub open spec fn opens_at(s: Seq<char>, q: Quoted) -> Option<int> {
    let at = value_at(s, q);
    if at < s.len() && s[at] == '{' {
        Some(at)
    } else {
        None
    }
}

/// Where the object opens that is the value of the root's only member `key`. `None` for a text
/// the walk fails on, for one with an escaped string beside the root's members, and for one in
/// which `key` is missing, stands twice or has another value than an object.
pub open spec fn object_of_key(s: Seq<char>, key: Seq<char>) -> Option<int> {
    match quoted_from(s, 0, 0) {
        Some(qs) => match sole_key(s, qs, key) {
            Some(q) => opens_at(s, q),
            None => None,
        },
        None => None,
    }
}

/// The sole key of a walk that failed is none.
pub open spec fn sole_key_of(s: Seq<char>, walk: Option<Seq<Quoted>>, key: Seq<char>) -> Option<
    Quoted,
> {
    match walk {
        Some(qs) => sole_key(s, qs, key),
        None => None,
    }
}

proof fn lemma_named_push(s: Seq<char>, met: Seq<Quoted>, q: Quoted, key: Seq<char>)
    ensures
        keys_named(s, met.push(q), key) == if is_key(s, q, key) {
            keys_named(s, met, key).push(q)
        } else {
            keys_named(s, met, key)
        },
        any_escaped(s, met.push(q)) == (any_escaped(s, met) || is_escaped(s, q)),
{
    reveal(Seq::filter);
    assert(met.push(q).drop_last() =~= met);
    assert(met.push(q).last() == q);
    if any_escaped(s, met) {
        let k = choose|k: int| 0 <= k < met.len() && is_escaped(s, #[trigger] met[k]);
        assert(met.push(q)[k] == met[k]);
    }
    if is_escaped(s, q) {
        assert(met.push(q)[met.len() as int] == q);
    }
    if any_escaped(s, met.push(q)) && !is_escaped(s, q) {
        let k = choose|k: int|
            0 <= k < met.push(q).len() && is_escaped(s, #[trigger] met.push(q)[k]);
        assert(met[k] == met.push(q)[k]);
    }
}

/// What has been met decides: an escaped string or a second key refuses the whole walk, and a
/// first key is the only one that can be found.
proof fn lemma_met_decides(
    s: Seq<char>,
    met: Seq<Quoted>,
    rest: Option<Seq<Quoted>>,
    key: Seq<char>,
)
    ensures
        any_escaped(s, met) ==> sole_key_of(s, led_by(met, rest), key) is None,
        keys_named(s, met, key).len() > 1 ==> sole_key_of(s, led_by(met, rest), key) is None,
        keys_named(s, met, key).len() == 1 ==> (sole_key_of(s, led_by(met, rest), key) is None
            || sole_key_of(s, led_by(met, rest), key) == Some(keys_named(s, met, key)[0])),
{
    if let Some(r) = rest {
        Seq::filter_distributes_over_add(met, r, |q: Quoted| is_key(s, q, key));
        assert(keys_named(s, met + r, key) == keys_named(s, met, key) + keys_named(s, r, key));
        if any_escaped(s, met) {
            let k = choose|k: int| 0 <= k < met.len() && is_escaped(s, #[trigger] met[k]);
            assert((met + r)[k] == met[k]);
        }
    }
}

proof fn lemma_led_push(met: Seq<Quoted>, q: Quoted, rest: Option<Seq<Quoted>>)
    ensures
        led_by(met, led_by(seq![q], rest)) == led_by(met.push(q), rest),
{
    if let Some(r) = rest {
        assert(met + (seq![q] + r) =~= met.push(q) + r);
    }
}

proof fn lemma_led_nothing(walk: Option<Seq<Quoted>>)
    ensures
        led_by(Seq::empty(), walk) == walk,
{
    if let Some(r) = walk {
        assert(Seq::<Quoted>::empty() + r =~= r);
    }
}

proof fn lemma_nothing_named(s: Seq<char>, key: Seq<char>)
    ensures
        keys_named(s, Seq::empty(), key).len() == 0,
        !any_escaped(s, Seq::empty()),
{
    reveal(Seq::filter);
}

/// Does the body `a..b` hold a backslash?
fn holds_backslash(s: &[char], a: usize, b: usize) -> (r: bool)
    requires
        a <= b <= s@.len(),
    ensures
        r == s@.subrange(a as int, b as int).contains('\\'),
{
    for i in a..b
        invariant
            a <= b <= s@.len(),
            forall|j: int| a <= j < i ==> s@[j] != '\\',
    {
        if s[i] == '\\' {
            assert(s@.subrange(a as int, b as int)[i - a] == '\\');
            return true;
        }
    }
    false
}

/// Is the body `a..b` exactly `key`?
fn body_is(s: &[char], a: usize, b: usize, key: &[char]) -> (r: bool)
    requires
        a <= b <= s@.len(),
    ensures
        r == (s@.subrange(a as int, b as int) == key@),
{
    if b - a != key.len() {
        return false;
    }
    for i in 0..key.len()
        invariant
            a <= b <= s@.len(),
            b - a == key@.len(),
            forall|j: int| 0 <= j < i ==> s@[a + j] == key@[j],
    {
        if s[a + i] != key[i] {
            assert(s@.subrange(a as int, b as int)[i as int] != key@[i as int]);
            return false;
        }
    }
    assert(s@.subrange(a as int, b as int) =~= key@);
    true
}

/// What a string met on a walk says of the key that is looked for.
enum Meeting {
    /// It is another string.
    Other,
    /// It is escaped, beside the keys.
    Escaped,
    /// It is the key, and its value begins here.
    Key(usize),
}

/// Look at the string `start..end` inside `depth` brackets.
fn meet(s: &[char], start: usize, end: usize, depth: usize, key: &[char]) -> (r: Meeting)
    requires
        start <= end < s@.len(),
    ensures
        ({
            let q = Quoted { start: start as int, end: end as int, depth: depth as int };
            match r {
                Meeting::Escaped => is_escaped(s@, q),
                Meeting::Key(at) => !is_escaped(s@, q) && is_key(s@, q, key@) && at == value_at(
                    s@,
                    q,
                ) && at <= s@.len(),
                Meeting::Other => !is_escaped(s@, q) && !is_key(s@, q, key@),
            }
        }),
{
    if depth != 1 {
        return Meeting::Other;
    }
    if holds_backslash(s, start, end) {
        return Meeting::Escaped;
    }
    let n: usize = s.len();
    if body_is(s, start, end, key) {
        let colon: usize = after_blank(s, end + 1);
        if colon < n && s[colon] == ':' {
            return Meeting::Key(after_blank(s, colon + 1));
        }
    }
    Meeting::Other
}

/// Where the object opens that is the value of the root's member `key`.
pub fn top_level_value_brace(s: &[char], key: &[char]) -> (r: Option<usize>)
    ensures
        opt_int(r) == object_of_key(s@, key@),
        r matches Some(b) ==> b < s@.len() && s@[b as int] == '{',
{
    let n: usize = s.len();
    let mut depth: usize = 0;
    let mut i: usize = 0;
    let mut found: Option<usize> = None;
    let ghost mut met: Seq<Quoted> = Seq::empty();
    let ghost walk = quoted_from(s@, 0, 0);
    proof {
        lemma_led_nothing(walk);
        lemma_nothing_named(s@, key@);
    }
    while i < n
        invariant
            n == s@.len(),
            i <= n,
            depth <= i,
            walk == quoted_from(s@, 0, 0),
            walk == led_by(met, quoted_from(s@, i as int, depth as int)),
            !any_escaped(s@, met),
            match found {
                Some(j) => keys_named(s@, met, key@).len() == 1 && opens_at(
                    s@,
                    keys_named(s@, met, key@)[0],
                ) == Some(j as int) && j < n,
                None => keys_named(s@, met, key@).len() == 0,
            },
        decreases n - i,
    {
        if s[i] == '"' {
            let start: usize = i + 1;
            let end: usize = match scan_string(s, start) {
                Some(e) => e,
                None => {
                    return None;
                },
            };
            let ghost q = Quoted { start: start as int, end: end as int, depth: depth as int };
            let ghost rest = quoted_from(s@, end + 1, depth as int);
            proof {
                lemma_led_push(met, q, rest);
                lemma_named_push(s@, met, q, key@);
                lemma_met_decides(s@, met.push(q), rest, key@);
            }
            match meet(s, start, end, depth, key) {
                Meeting::Escaped => {
                    return None;
                },
                Meeting::Key(at) => {
                    if found.is_some() {
                        return None;
                    }
                    if at >= n || s[at] != '{' {
                        return None;
                    }
                    found = Some(at);
                },
                Meeting::Other => {},
            }
            proof {
                met = met.push(q);
            }
            i = end + 1;
        } else if s[i] == '{' || s[i] == '[' {
            depth += 1;
            i += 1;
        } else if s[i] == '}' || s[i] == ']' {
            if depth == 0 {
                return None;
            }
            depth -= 1;
            i += 1;
        } else {
            i += 1;
        }
    }
    proof {
        assert(met + Seq::<Quoted>::empty() =~= met);
    }
    found
}

/// The strings met inside the object that opens at `i` with `depth` brackets open, up to where
/// it closes; the walk steps over the value of each key `key`.
pub open spec fn members_from(s: Seq<char>, i: int, depth: int, key: Seq<char>) -> Option<
    Seq<Quoted>,
>
    decreases s.len() - i,
{
    if i < 0 || i >= s.len() {
        None
    } else if s[i] == '"' {
        match string_end(s, i + 1) {
            Some(e) => {
                let q = Quoted { start: i + 1, end: e, depth };
                proof {
                    lemma_string_end(s, i + 1);
                    lemma_skip_blank(s, e + 1);
                    lemma_skip_blank(s, skip_blank(s, e + 1) + 1);
                    if value_end(s, value_at(s, q)) is Some {
                        lemma_value_end(s, value_at(s, q));
                    }
                }
                if is_key(s, q, key) {
                    match value_end(s, value_at(s, q)) {
                        Some(after) => led_by(seq![q], members_from(s, after, depth, key)),
                        None => None,
                    }
                } else {
                    led_by(seq![q], members_from(s, e + 1, depth, key))
                }
            },
            None => None,
        }
    } else if is_open(s[i]) {
        members_from(s, i + 1, depth + 1, key)
    } else if is_close(s[i]) {
        if depth <= 0 {
            None
        } else if depth == 1 {
            Some(Seq::empty())
        } else {
            members_from(s, i + 1, depth - 1, key)
        }
    } else {
        members_from(s, i + 1, depth, key)
    }
}

/// The span of the value of the only member `key` of the object that opens at `open`. `None`
/// where the walk fails, an escaped string stands beside the members, or `key` is missing or
/// stands twice.
pub open spec fn value_of_key(s: Seq<char>, open: int, key: Seq<char>) -> Option<(int, int)> {
    match sole_key_of(s, members_from(s, open, 0, key), key) {
        Some(q) => Some((value_at(s, q), value_end(s, value_at(s, q))->0)),
        None => None,
    }
}

/// An optional span as optional integers.
pub open spec fn opt_span(o: Option<(usize, usize)>) -> Option<(int, int)> {
    match o {
        Some(p) => Some((p.0 as int, p.1 as int)),
        None => None,
    }
}

/// Where the walk over an object goes on after the string `q`.
pub open spec fn resume_at(s: Seq<char>, q: Quoted, key: Seq<char>) -> Option<int> {
    if is_key(s, q, key) {
        value_end(s, value_at(s, q))
    } else {
        Some(q.end + 1)
    }
}

/// The rest of the walk over an object after the string `q`.
pub open spec fn members_after(s: Seq<char>, q: Quoted, key: Seq<char>) -> Option<Seq<Quoted>> {
    match resume_at(s, q, key) {
        Some(i) => members_from(s, i, q.depth, key),
        None => None,
    }
}

proof fn lemma_members_step(s: Seq<char>, i: int, depth: int, key: Seq<char>, e: int)
    requires
        0 <= i < s.len(),
        s[i] == '"',
        string_end(s, i + 1) == Some(e),
    ensures
        ({
            let q = Quoted { start: i + 1, end: e, depth };
            members_from(s, i, depth, key) == led_by(seq![q], members_after(s, q, key))
        }),
{
}

/// The span of the value of `key`, as a direct member of the object that opens at `open`.
pub fn value_of_key_in_object(s: &[char], open: usize, key: &[char]) -> (r: Option<(usize, usize)>)
    requires
        open <= s@.len(),
    ensures
        opt_span(r) == value_of_key(s@, open as int, key@),
        r matches Some(p) ==> p.0 < p.1 <= s@.len(),
{
    let n: usize = s.len();
    let mut depth: usize = 0;
    let mut i: usize = open;
    let mut found: Option<(usize, usize)> = None;
    let ghost mut met: Seq<Quoted> = Seq::empty();
    let ghost walk = members_from(s@, open as int, 0, key@);
    proof {
        lemma_led_nothing(walk);
        lemma_nothing_named(s@, key@);
    }
    while i < n
        invariant
            n == s@.len(),
            open <= i <= n,
            depth <= i,
            walk == members_from(s@, open as int, 0, key@),
            walk == led_by(met, members_from(s@, i as int, depth as int, key@)),
            !any_escaped(s@, met),
            match found {
                Some(p) => {
                    let named = keys_named(s@, met, key@);
                    &&& named.len() == 1
                    &&& p.0 == value_at(s@, named[0])
                    &&& value_end(s@, p.0 as int) == Some(p.1 as int)
                    &&& p.0 < p.1 <= n
                },
                None => keys_named(s@, met, key@).len() == 0,
            },
        decreases n - i,
    {
        if s[i] == '"' {
            let start: usize = i + 1;
            let end: usize = match scan_string(s, start) {
                Some(e) => e,
                None => {
                    return None;
                },
            };
            let ghost q = Quoted { start: start as int, end: end as int, depth: depth as int };
            let ghost rest = members_after(s@, q, key@);
            proof {
                lemma_members_step(s@, i as int, depth as int, key@, end as int);
                lemma_led_push(met, q, rest);
                lemma_named_push(s@, met, q, key@);
                lemma_met_decides(s@, met.push(q), rest, key@);
            }
            let mut resume: usize = end + 1;
            match meet(s, start, end, depth, key) {
                Meeting::Escaped => {
                    return None;
                },
                Meeting::Key(at) => {
                    if found.is_some() {
                        return None;
                    }
                    match json_value_extent(s, at) {
                        Some(stop) => {
                            proof {
                                lemma_skip_blank(s@, end + 1);
                                lemma_skip_blank(s@, skip_blank(s@, end + 1) + 1);
                            }
                            found = Some((at, stop));
                            resume = stop;
                        },
                        None => {
                            return None;
                        },
                    }
                },
                Meeting::Other => {},
            }
            proof {
                met = met.push(q);
            }
            i = resume;
        } else if s[i] == '{' || s[i] == '[' {
            depth += 1;
            i += 1;
        } else if s[i] == '}' || s[i] == ']' {
            if depth == 0 {
                return None;
            }
            depth -= 1;
            if depth == 0 {
                proof {
                    assert(met + Seq::<Quoted>::empty() =~= met);
                }
                return found;
            }
            i += 1;
        } else {
            i += 1;
        }
    }
    None
}

/// `s` with `with` in place of what stood from `from` up to `to`.
pub open spec fn splice_of(s: Seq<char>, from: int, to: int, with: Seq<char>) -> Seq<char> {
    s.subrange(0, from) + with + s.subrange(to, s.len() as int)
}

/// Replace what stands from `from` up to `to`; everything else stays where it was.
pub fn splice(s: &[char], from: usize, to: usize, with: &str) -> (r: String)
    requires
        from <= to <= s@.len(),
    ensures
        r@ == splice_of(s@, from as int, to as int, with@),
{
    let mut out = string_between(s, 0, from);
    out.push_str(with);
    let tail = string_between(s, to, s.len());
    out.push_str(tail.as_str());
    out
}

/// A splice keeps every character before `from` and every character from `to` on.
pub proof fn splice_keeps_the_rest(s: Seq<char>, from: int, to: int, with: Seq<char>)
    requires
        0 <= from <= to <= s.len(),
    ensures
        splice_of(s, from, to, with).subrange(0, from) == s.subrange(0, from),
        splice_of(s, from, to, with).subrange(
            from + with.len(),
            splice_of(s, from, to, with).len() as int,
        ) == s.subrange(to, s.len() as int),
{
    let out = splice_of(s, from, to, with);
    assert(out.subrange(0, from) =~= s.subrange(0, from));
    assert(out.subrange(from + with.len(), out.len() as int) =~= s.subrange(to, s.len() as int));
}

/// `s` with a line feed at its end.
pub open spec fn newline_ended(s: Seq<char>) -> Seq<char> {
    if s.len() > 0 && s.last() == '\n' {
        s
    } else {
        s.push('\n')
    }
}

pub fn ensure_trailing_newline(s: &mut String)
    ensures
        final(s)@ == newline_ended(old(s)@),
{
    let v = chars_of(s.as_str());
    if v.len() == 0 || v[v.len() - 1] != '\n' {
        s.push('\n');
    }
}

/// The first index from `i` on, `end` at most, that holds neither whitespace nor a comma.
pub open spec fn skip_separators(s: Seq<char>, i: int, end: int) -> int
    decreases end - i,
{
    if 0 <= i < end && (is_blank(s[i]) || s[i] == ',') {
        skip_separators(s, i + 1, end)
    } else {
        i
    }
}

pub proof fn lemma_skip_separators(s: Seq<char>, i: int, end: int)
    ensures
        i <= skip_separators(s, i, end),
        i <= end ==> skip_separators(s, i, end) <= end,
    decreases end - i,
{
    if 0 <= i < end && (is_blank(s[i]) || s[i] == ',') {
        lemma_skip_separators(s, i + 1, end);
    }
}

/// The spans of the array elements from `i` on, up to the closing bracket or `end`. `None` where
/// an element does not end, or ends past `end`.
pub open spec fn spans_from(s: Seq<char>, i: int, end: int) -> Option<Seq<(int, int)>>
    decreases end - i,
{
    let at = skip_separators(s, i, end);
    if at >= end || s[at] == ']' {
        Some(Seq::empty())
    } else {
        proof {
            lemma_skip_separators(s, i, end);
            if value_end(s, at) is Some {
                lemma_value_end(s, at);
            }
        }
        match value_end(s, at) {
            Some(stop) => if stop > end {
                None
            } else {
                match spans_from(s, stop, end) {
                    Some(rest) => Some(seq![(at, stop)] + rest),
                    None => None,
                }
            },
            None => None,
        }
    }
}

/// Spans as integers.
pub open spec fn spans_of(v: Seq<(usize, usize)>) -> Seq<(int, int)> {
    Seq::new(v.len(), |i: int| (v[i].0 as int, v[i].1 as int))
}

/// Every span lies between `lo` and `hi`.
pub open spec fn spans_within(v: Seq<(usize, usize)>, lo: int, hi: int) -> bool {
    forall|i: int| 0 <= i < v.len() ==> lo <= (#[trigger] v[i]).0 < v[i].1 <= hi
}

/// The spans of an array's elements, given where it opens and one past where it ends.
pub fn array_element_spans(s: &[char], open: usize, end: usize) -> (r: Option<Vec<(usize, usize)>>)
    requires
        open < end <= s@.len(),
    ensures
        match r {
            Some(v) => spans_from(s@, open + 1, end as int) == Some(spans_of(v@)),
            None => spans_from(s@, open + 1, end as int) is None,
        },
        r matches Some(v) ==> spans_within(v@, open + 1, end as int),
{
    let mut out: Vec<(usize, usize)> = Vec::new();
    let mut i: usize = open + 1;
    proof {
        if let Some(q) = spans_from(s@, open + 1, end as int) {
            assert(spans_of(out@) + q =~= q);
        }
    }
    loop
        invariant
            open < i <= end <= s@.len(),
            spans_within(out@, open + 1, end as int),
            match spans_from(s@, i as int, end as int) {
                Some(rest) => spans_from(s@, open + 1, end as int) == Some(spans_of(out@) + rest),
                None => spans_from(s@, open + 1, end as int) is None,
            },
        decreases end - i,
    {
        let ghost from = i as int;
        let ghost before = out@;
        while i < end && (blank(s[i]) || s[i] == ',')
            invariant
                from <= i <= end <= s@.len(),
                0 <= from,
                skip_separators(s@, from, end as int) == skip_separators(s@, i as int, end as int),
            decreases end - i,
        {
            i += 1;
        }
        if i >= end || s[i] == ']' {
            proof {
                assert(spans_of(out@) + Seq::<(int, int)>::empty() =~= spans_of(out@));
            }
            return Some(out);
        }
        let stop: usize = match json_value_extent(s, i) {
            Some(x) => x,
            None => {
                return None;
            },
        };
        if stop > end {
            return None;
        }
        out.push((i, stop));
        proof {
            if let Some(rest) = spans_from(s@, stop as int, end as int) {
                assert(spans_of(before) + (seq![(i as int, stop as int)] + rest) =~= spans_of(out@)
                    + rest);
            }
        }
        i = stop;
    }
}

/// The first index from `i` on, `end` at most, that does not hold whitespace.
pub open spec fn skip_blank_to(s: Seq<char>, i: int, end: int) -> int
    decreases end - i,
{
    if 0 <= i < end && is_blank(s[i]) {
        skip_blank_to(s, i + 1, end)
    } else {
        i
    }
}

/// The index after the last character before `k`, `lo` at least, that is not whitespace.
pub open spec fn back_over_blank(s: Seq<char>, k: int, lo: int) -> int
    decreases k - lo,
{
    if lo < k && is_blank(s[k - 1]) {
        back_over_blank(s, k - 1, lo)
    } else {
        k
    }
}

/// The span to cut so that the element `a..b` leaves the array `open..end` with one comma: the
/// comma behind it, and for the last element the one before it.
pub open spec fn cut_of(s: Seq<char>, open: int, end: int, a: int, b: int) -> (int, int) {
    let j = skip_blank_to(s, b, end);
    let k = back_over_blank(s, a, open + 1);
    if j < end && s[j] == ',' {
        (a, j + 1)
    } else if k > open + 1 && s[k - 1] == ',' {
        (k - 1, b)
    } else {
        (a, b)
    }
}

/// `s` without the array element whose span is `a..b`.
pub open spec fn without_element(s: Seq<char>, open: int, end: int, a: int, b: int) -> Seq<char> {
    let cut = cut_of(s, open, end, a, b);
    splice_of(s, cut.0, cut.1, Seq::empty())
}

/// Delete one array element and exactly one adjacent comma.
pub fn drop_element(
    s: &[char],
    open: usize,
    end: usize,
    spans: &Vec<(usize, usize)>,
    i: usize,
) -> (r: String)
    requires
        open < end <= s@.len(),
        i < spans@.len(),
        spans_within(spans@, open + 1, end as int),
    ensures
        r@ == without_element(
            s@,
            open as int,
            end as int,
            spans@[i as int].0 as int,
            spans@[i as int].1 as int,
        ),
{
    let a: usize = spans[i].0;
    let b: usize = spans[i].1;
    let mut j: usize = b;
    while j < end && blank(s[j])
        invariant
            b <= j <= end <= s@.len(),
            skip_blank_to(s@, b as int, end as int) == skip_blank_to(s@, j as int, end as int),
        decreases end - j,
    {
        j += 1;
    }
    proof {
        reveal_strlit("");
        assert(""@ =~= Seq::<char>::empty());
    }
    if j < end && s[j] == ',' {
        return splice(s, a, j + 1, "");
    }
    let mut k: usize = a;
    while k > open + 1 && blank(s[k - 1])
        invariant
            open + 1 <= k <= a <= s@.len(),
            open + 1 <= usize::MAX,
            back_over_blank(s@, a as int, open + 1) == back_over_blank(s@, k as int, open + 1),
        decreases k,
    {
        k -= 1;
    }
    if k > open + 1 && s[k - 1] == ',' {
        splice(s, k - 1, b, "")
    } else {
        splice(s, a, b, "")
    }
}

pub proof fn lemma_keys_have_values(s: Seq<char>, i: int, depth: int, key: Seq<char>)
    requires
        members_from(s, i, depth, key) is Some,
    ensures
        forall|k: int|
            0 <= k < members_from(s, i, depth, key)->0.len() && is_key(
                s,
                #[trigger] members_from(s, i, depth, key)->0[k],
                key,
            ) ==> value_end(s, value_at(s, members_from(s, i, depth, key)->0[k])) is Some
                && value_end(s, value_at(s, members_from(s, i, depth, key)->0[k]))->0 < s.len()
                && members_from(s, i, depth, key)->0[k].end > i,
    decreases s.len() - i,
{
    if s[i] == '"' {
        lemma_string_end(s, i + 1);
        let e = string_end(s, i + 1)->0;
        let q = Quoted { start: i + 1, end: e, depth };
        lemma_skip_blank(s, e + 1);
        lemma_skip_blank(s, skip_blank(s, e + 1) + 1);
        if is_key(s, q, key) {
            lemma_value_end(s, value_at(s, q));
            lemma_keys_have_values(s, value_end(s, value_at(s, q))->0, depth, key);
        } else {
            lemma_keys_have_values(s, e + 1, depth, key);
        }
        let rest = members_after(s, q, key)->0;
        let all = members_from(s, i, depth, key)->0;
        assert(all =~= seq![q] + rest);
        assert forall|k: int| 0 <= k < all.len() && is_key(s, #[trigger] all[k], key) implies value_end(
            s,
            value_at(s, all[k]),
        ) is Some && value_end(s, value_at(s, all[k]))->0 < s.len() && all[k].end > i by {
            if k > 0 {
                assert(all[k] == rest[k - 1]);
            }
        }
    } else if is_open(s[i]) {
        lemma_keys_have_values(s, i + 1, depth + 1, key);
    } else if is_close(s[i]) {
        if depth > 1 {
            lemma_keys_have_values(s, i + 1, depth - 1, key);
        }
    } else {
        lemma_keys_have_values(s, i + 1, depth, key);
    }
}

/// The span of a member's value is not empty and lies in the text.
pub proof fn lemma_value_of_key(s: Seq<char>, open: int, key: Seq<char>)
    requires
        value_of_key(s, open, key) is Some,
    ensures
        ({
            let span = value_of_key(s, open, key)->0;
            0 < span.0 < span.1 < s.len() && !is_blank(s[span.0])
        }),
{
    let qs = members_from(s, open, 0, key)->0;
    let p = |q: Quoted| is_key(s, q, key);
    let named = keys_named(s, qs, key);
    lemma_keys_have_values(s, open, 0, key);
    assert(named.contains(named[0]));
    qs.lemma_filter_contains_rev(p, named[0]);
    let k = choose|k: int| 0 <= k < qs.len() && qs[k] == named[0];
    assert(is_key(s, qs[k], key)) by {
        qs.lemma_filter_pred(p, 0);
    }
    lemma_value_end(s, value_at(s, qs[k]));
    lemma_skip_blank(s, qs[k].end + 1);
    lemma_skip_blank(s, skip_blank(s, qs[k].end + 1) + 1);
}

proof fn lemma_quoted_ends(s: Seq<char>, i: int, depth: int)
    requires
        0 <= i,
        quoted_from(s, i, depth) is Some,
    ensures
        forall|k: int|
            0 <= k < quoted_from(s, i, depth)->0.len() ==> (#[trigger] quoted_from(
                s,
                i,
                depth,
            )->0[k]).end >= i,
    decreases s.len() - i,
{
    if i < s.len() {
        if s[i] == '"' {
            lemma_string_end(s, i + 1);
            let e = string_end(s, i + 1)->0;
            lemma_quoted_ends(s, e + 1, depth);
            let rest = quoted_from(s, e + 1, depth)->0;
            let all = quoted_from(s, i, depth)->0;
            assert(all =~= seq![Quoted { start: i + 1, end: e, depth }] + rest);
            assert forall|k: int| 0 <= k < all.len() implies (#[trigger] all[k]).end >= i by {
                if k > 0 {
                    assert(all[k] == rest[k - 1]);
                }
            }
        } else if is_open(s[i]) {
            lemma_quoted_ends(s, i + 1, depth + 1);
        } else if is_close(s[i]) {
            lemma_quoted_ends(s, i + 1, depth - 1);
        } else {
            lemma_quoted_ends(s, i + 1, depth);
        }
    }
}

/// The object that is located lies in the text.
pub proof fn lemma_object_of_key(s: Seq<char>, key: Seq<char>)
    requires
        object_of_key(s, key) is Some,
    ensures
        0 <= object_of_key(s, key)->0 < s.len(),
        s[object_of_key(s, key)->0] == '{',
{
    let qs = quoted_from(s, 0, 0)->0;
    let p = |q: Quoted| is_key(s, q, key);
    let named = keys_named(s, qs, key);
    lemma_quoted_ends(s, 0, 0);
    assert(named.contains(named[0]));
    qs.lemma_filter_contains_rev(p, named[0]);
    let k = choose|k: int| 0 <= k < qs.len() && qs[k] == named[0];
    assert(qs[k].end >= 0);
    lemma_skip_blank(s, qs[k].end + 1);
    lemma_skip_blank(s, skip_blank(s, qs[k].end + 1) + 1);
}

/// The spans of an array's elements are not empty and lie in the array.
pub proof fn lemma_spans(s: Seq<char>, i: int, end: int)
    requires
        spans_from(s, i, end) is Some,
        0 <= i,
        end <= s.len(),
    ensures
        forall|k: int|
            0 <= k < spans_from(s, i, end)->0.len() ==> i <= (#[trigger] spans_from(s, i, end)->0[k]).0
                < spans_from(s, i, end)->0[k].1 <= end,
    decreases end - i,
{
    let at = skip_separators(s, i, end);
    lemma_skip_separators(s, i, end);
    if !(at >= end || s[at] == ']') {
        lemma_value_end(s, at);
        let stop = value_end(s, at)->0;
        lemma_spans(s, stop, end);
        let rest = spans_from(s, stop, end)->0;
        let all = spans_from(s, i, end)->0;
        assert forall|k: int| 0 <= k < all.len() implies i <= (#[trigger] all[k]).0 < all[k].1 <= end by {
            if k > 0 {
                assert(all[k] == rest[k - 1]);
            }
        }
    }
}

/// A text without one of its array elements is shorter.
pub proof fn lemma_without_element(s: Seq<char>, open: int, end: int, a: int, b: int)
    requires
        0 <= open < a < b <= end <= s.len(),
    ensures
        without_element(s, open, end, a, b).len() < s.len(),
        ({
            let cut = cut_of(s, open, end, a, b);
            open < cut.0 <= a && b <= cut.1 <= s.len()
        }),
{
    lemma_skip_blank_to(s, b, end);
    lemma_back_over_blank(s, a, open + 1);
}

pub proof fn lemma_skip_blank_to(s: Seq<char>, i: int, end: int)
    requires
        0 <= i <= end,
    ensures
        i <= skip_blank_to(s, i, end) <= end,
        forall|x: int| i <= x < skip_blank_to(s, i, end) ==> is_blank(#[trigger] s[x]),
    decreases end - i,
{
    if i < end && is_blank(s[i]) {
        lemma_skip_blank_to(s, i + 1, end);
    }
}

pub proof fn lemma_back_over_blank(s: Seq<char>, k: int, lo: int)
    requires
        lo <= k,
    ensures
        lo <= back_over_blank(s, k, lo) <= k,
        forall|x: int| back_over_blank(s, k, lo) <= x < k ==> is_blank(#[trigger] s[x]),
    decreases k - lo,
{
    if lo < k && is_blank(s[k - 1]) {
        lemma_back_over_blank(s, k - 1, lo);
    }
}

} // verus!
