//! Text as sequences of characters: the string operations that the rest of the library is
//! written with, each with the sequence it computes.

use vstd::prelude::*;

verus! {

/// The code points with the Unicode `White_Space` property.
pub open spec fn is_white(c: char) -> bool {
    let u = c as u32;
    ||| 0x09 <= u <= 0x0d
    ||| u == 0x20
    ||| u == 0x85
    ||| u == 0xa0
    ||| u == 0x1680
    ||| 0x2000 <= u <= 0x200a
    ||| u == 0x2028
    ||| u == 0x2029
    ||| u == 0x202f
    ||| u == 0x205f
    ||| u == 0x3000
}

/// Does `c` have the Unicode `White_Space` property?
pub fn is_whitespace(c: char) -> (r: bool)
    ensures
        r == is_white(c),
{
    let u: u32 = c as u32;
    (0x09 <= u && u <= 0x0d) || u == 0x20 || u == 0x85 || u == 0xa0 || u == 0x1680 || (0x2000 <= u
        && u <= 0x200a) || u == 0x2028 || u == 0x2029 || u == 0x202f || u == 0x205f || u == 0x3000
}

/// The general category `Cc`: the C0 and C1 controls and DEL.
pub open spec fn is_cc(c: char) -> bool {
    (c as u32) <= 0x1f || 0x7f <= (c as u32) <= 0x9f
}

/// Is `c` a control character?
pub fn is_control(c: char) -> (r: bool)
    ensures
        r == is_cc(c),
{
    let u: u32 = c as u32;
    u <= 0x1f || (0x7f <= u && u <= 0x9f)
}

pub open spec fn has_control(s: Seq<char>) -> bool {
    exists|i: int| 0 <= i < s.len() && is_cc(#[trigger] s[i])
}

/// Does any character of `s` belong to the control category?
pub fn contains_control(s: &str) -> (r: bool)
    ensures
        r == has_control(s@),
{
    let v = chars_of(s);
    for i in 0..v.len()
        invariant
            v@ == s@,
            forall|j: int| 0 <= j < i ==> !is_cc(#[trigger] s@[j]),
    {
        if is_control(v[i]) {
            assert(is_cc(s@[i as int]));
            return true;
        }
    }
    false
}

/// The characters of `s`, in order.
pub fn chars_of(s: &str) -> (v: Vec<char>)
    ensures
        v@ == s@,
{
    let mut v: Vec<char> = Vec::new();
    for c in it: s.chars()
        invariant
            v@ == it.seq().take(it.index() as int),
            it.seq() == s@,
    {
        v.push(c);
    }
    v
}

/// `String::push` appends one character and changes nothing before it.
pub assume_specification[ String::push ](s: &mut String, c: char)
    ensures
        final(s)@ == old(s)@.push(c),
;

/// `String::push_str` appends the whole of its argument.
pub assume_specification[ String::push_str ](s: &mut String, t: &str)
    ensures
        final(s)@ == old(s)@ + t@,
;

/// The string whose characters are `v`.
pub fn string_of(v: &[char]) -> (s: String)
    ensures
        s@ == v@,
{
    let mut s = String::new();
    for i in 0..v.len()
        invariant
            s@ == v@.take(i as int),
    {
        s.push(v[i]);
    }
    s
}

/// The string of the characters from `a` up to, not including, `b`.
pub fn string_between(v: &[char], a: usize, b: usize) -> (s: String)
    requires
        a <= b <= v@.len(),
    ensures
        s@ == v@.subrange(a as int, b as int),
{
    let mut s = String::new();
    for i in a..b
        invariant
            a <= b <= v@.len(),
            s@ == v@.subrange(a as int, i as int),
    {
        s.push(v[i]);
    }
    s
}

/// Are the two texts equal, character for character?
pub fn same(a: &str, b: &str) -> (r: bool)
    ensures
        r == (a@ == b@),
{
    let x: String = a.to_owned();
    let y: String = b.to_owned();
    x == y
}

/// Two texts, one after the other.
pub fn cat2(a: &str, b: &str) -> (r: String)
    ensures
        r@ == a@ + b@,
{
    let mut s = a.to_owned();
    s.push_str(b);
    s
}

/// Three texts, one after the other.
pub fn cat3(a: &str, b: &str, c: &str) -> (r: String)
    ensures
        r@ == a@ + b@ + c@,
{
    let mut s = a.to_owned();
    s.push_str(b);
    s.push_str(c);
    s
}

/// Five texts, one after the other.
pub fn cat4(a: &str, b: &str, c: &str, d: &str) -> (r: String)
    ensures
        r@ == a@ + b@ + c@ + d@,
{
    let mut s = cat3(a, b, c);
    s.push_str(d);
    s
}

pub fn cat5(a: &str, b: &str, c: &str, d: &str, e: &str) -> (r: String)
    ensures
        r@ == a@ + b@ + c@ + d@ + e@,
{
    let mut s = a.to_owned();
    s.push_str(b);
    s.push_str(c);
    s.push_str(d);
    s.push_str(e);
    s
}

/// The number of bytes of the UTF-8 form of a text.
pub open spec fn utf8_len(s: Seq<char>) -> nat {
    vstd::utf8::encode_utf8(s).len()
}

pub fn byte_len(s: &str) -> (r: usize)
    ensures
        r == utf8_len(s@),
{
    s.as_bytes().len()
}

/// The texts of a vector of strings.
pub open spec fn strs(v: Seq<String>) -> Seq<Seq<char>> {
    Seq::new(v.len(), |i: int| v[i]@)
}

/// Pairs of texts.
pub open spec fn pairs(v: Seq<(String, String)>) -> Seq<(Seq<char>, Seq<char>)> {
    Seq::new(v.len(), |i: int| (v[i].0@, v[i].1@))
}

pub broadcast proof fn lemma_strs_push(v: Seq<String>, s: String)
    ensures
        #[trigger] strs(v.push(s)) == strs(v).push(s@),
{
    assert(strs(v.push(s)) =~= strs(v).push(s@));
}

/// The text of an optional string.
pub open spec fn opt_str(o: Option<String>) -> Option<Seq<char>> {
    match o {
        Some(s) => Some(s@),
        None => None,
    }
}

/// The text of an optional borrowed string.
pub open spec fn opt_ref(o: Option<&str>) -> Option<Seq<char>> {
    match o {
        Some(s) => Some(s@),
        None => None,
    }
}

/// An optional index as an optional integer.
pub open spec fn opt_int(o: Option<usize>) -> Option<int> {
    match o {
        Some(i) => Some(i as int),
        None => None,
    }
}

/// Is `needle` among the texts of `v`?
pub fn has_str(v: &Vec<String>, needle: &str) -> (r: bool)
    ensures
        r == strs(v@).contains(needle@),
{
    for i in 0..v.len()
        invariant
            forall|j: int| 0 <= j < i ==> #[trigger] strs(v@)[j] != needle@,
    {
        if same(v[i].as_str(), needle) {
            assert(strs(v@)[i as int] == needle@);
            return true;
        }
    }
    false
}

/// Does `c` stand anywhere in `s`?
pub fn has_char(s: &str, c: char) -> (r: bool)
    ensures
        r == s@.contains(c),
{
    let v = chars_of(s);
    for i in 0..v.len()
        invariant
            v@ == s@,
            forall|j: int| 0 <= j < i ==> s@[j] != c,
    {
        if v[i] == c {
            assert(s@[i as int] == c);
            return true;
        }
    }
    false
}

/// A copy of a list of strings.
pub fn clone_strs(v: &Vec<String>) -> (r: Vec<String>)
    ensures
        strs(r@) == strs(v@),
        r@.len() == v@.len(),
{
    let mut out: Vec<String> = Vec::new();
    for i in 0..v.len()
        invariant
            strs(out@) == strs(v@).take(i as int),
            out@.len() == i,
    {
        broadcast use lemma_strs_push;

        out.push(v[i].clone());
        assert(strs(out@) =~= strs(v@).take(i + 1));
    }
    assert(strs(v@).take(v@.len() as int) =~= strs(v@));
    out
}

/// A copy of an optional string.
pub fn clone_opt(o: &Option<String>) -> (r: Option<String>)
    ensures
        opt_str(r) == opt_str(*o),
{
    match o {
        Some(s) => Some(s.clone()),
        None => None,
    }
}

/// `pat` stands in `s` at index `i`.
pub open spec fn occurs_at(s: Seq<char>, pat: Seq<char>, i: int) -> bool {
    0 <= i && i + pat.len() <= s.len() && s.subrange(i, i + pat.len()) == pat
}

/// `pat` stands somewhere in `s`.
pub open spec fn has_sub(s: Seq<char>, pat: Seq<char>) -> bool {
    exists|i: int| occurs_at(s, pat, i)
}

/// `i` is the first index of `s` at which `pat` stands.
pub open spec fn is_first(s: Seq<char>, pat: Seq<char>, i: int) -> bool {
    occurs_at(s, pat, i) && forall|j: int| 0 <= j < i ==> !occurs_at(s, pat, j)
}

/// The first index of `s` at which `pat` stands.
pub open spec fn find_sub(s: Seq<char>, pat: Seq<char>) -> Option<int> {
    if has_sub(s, pat) {
        Some(choose|i: int| is_first(s, pat, i))
    } else {
        None
    }
}

pub proof fn lemma_first_is_found(s: Seq<char>, pat: Seq<char>, i: int)
    requires
        is_first(s, pat, i),
    ensures
        find_sub(s, pat) == Some(i),
{
    let k = choose|k: int| is_first(s, pat, k);
    assert(is_first(s, pat, k));
    assert(!(k < i) && !(i < k));
}

proof fn lemma_some_first(s: Seq<char>, pat: Seq<char>, i: int) -> (first: int)
    requires
        occurs_at(s, pat, i),
    ensures
        is_first(s, pat, first),
    decreases i,
{
    if exists|j: int| 0 <= j < i && occurs_at(s, pat, j) {
        let j = choose|j: int| 0 <= j < i && occurs_at(s, pat, j);
        lemma_some_first(s, pat, j)
    } else {
        i
    }
}

/// What is found stands there, and nowhere before.
pub proof fn lemma_found_is_first(s: Seq<char>, pat: Seq<char>)
    requires
        find_sub(s, pat) is Some,
    ensures
        is_first(s, pat, find_sub(s, pat)->0),
{
    let i = choose|i: int| occurs_at(s, pat, i);
    let k = lemma_some_first(s, pat, i);
    lemma_first_is_found(s, pat, k);
}

/// Does `pat` stand in `s` at `i`?
pub fn stands_at(s: &[char], pat: &[char], i: usize) -> (r: bool)
    ensures
        r == occurs_at(s@, pat@, i as int),
{
    if s.len() < pat.len() || s.len() - pat.len() < i {
        return false;
    }
    let n: usize = s.len();
    for k in 0..pat.len()
        invariant
            n == s@.len(),
            i + pat@.len() <= n,
            forall|j: int| 0 <= j < k ==> s@[i + j] == pat@[j],
    {
        if s[i + k] != pat[k] {
            assert(s@.subrange(i as int, i + pat@.len())[k as int] != pat@[k as int]);
            return false;
        }
    }
    assert(s@.subrange(i as int, i + pat@.len()) =~= pat@);
    true
}

/// The first index at which `pat` stands in `s`.
pub fn find_in(s: &[char], pat: &[char]) -> (r: Option<usize>)
    ensures
        opt_int(r) == find_sub(s@, pat@),
        r matches Some(i) ==> is_first(s@, pat@, i as int) && i + pat@.len() <= s@.len(),
{
    if s.len() < pat.len() {
        return None;
    }
    let last: usize = s.len() - pat.len();
    let mut i: usize = 0;
    loop
        invariant
            last == s@.len() - pat@.len(),
            i <= last,
            forall|j: int| 0 <= j < i ==> !occurs_at(s@, pat@, j),
        decreases last - i,
    {
        if stands_at(s, pat, i) {
            proof {
                lemma_first_is_found(s@, pat@, i as int);
            }
            return Some(i);
        }
        if i == last {
            assert(forall|j: int| !occurs_at(s@, pat@, j));
            return None;
        }
        i += 1;
    }
}

/// Does `pat` stand anywhere in `s`?
pub fn contains(s: &str, pat: &str) -> (r: bool)
    ensures
        r == has_sub(s@, pat@),
{
    let v = chars_of(s);
    let p = chars_of(pat);
    find_in(&v, &p).is_some()
}

/// `pat` is the beginning of `s`.
pub open spec fn begins(s: Seq<char>, pat: Seq<char>) -> bool {
    pat.len() <= s.len() && s.subrange(0, pat.len() as int) == pat
}

/// `pat` is the end of `s`.
pub open spec fn ends(s: Seq<char>, pat: Seq<char>) -> bool {
    pat.len() <= s.len() && s.subrange(s.len() - pat.len(), s.len() as int) == pat
}

pub fn starts_with(s: &str, pat: &str) -> (r: bool)
    ensures
        r == begins(s@, pat@),
{
    let v = chars_of(s);
    let p = chars_of(pat);
    stands_at(&v, &p, 0)
}

/// What follows `pat` at the beginning of `s`.
pub open spec fn after_prefix(s: Seq<char>, pat: Seq<char>) -> Option<Seq<char>> {
    if begins(s, pat) {
        Some(s.subrange(pat.len() as int, s.len() as int))
    } else {
        None
    }
}

/// What precedes `pat` at the end of `s`.
pub open spec fn before_suffix(s: Seq<char>, pat: Seq<char>) -> Option<Seq<char>> {
    if ends(s, pat) {
        Some(s.subrange(0, s.len() - pat.len()))
    } else {
        None
    }
}

pub fn strip_prefix(s: &str, pat: &str) -> (r: Option<String>)
    ensures
        opt_str(r) == after_prefix(s@, pat@),
{
    let v = chars_of(s);
    let p = chars_of(pat);
    if stands_at(&v, &p, 0) {
        Some(string_between(&v, p.len(), v.len()))
    } else {
        None
    }
}

pub fn strip_suffix(s: &str, pat: &str) -> (r: Option<String>)
    ensures
        opt_str(r) == before_suffix(s@, pat@),
{
    let v = chars_of(s);
    let p = chars_of(pat);
    if v.len() < p.len() {
        return None;
    }
    let at: usize = v.len() - p.len();
    if stands_at(&v, &p, at) {
        Some(string_between(&v, 0, at))
    } else {
        None
    }
}

/// `s` without the whitespace at its end.
pub open spec fn trim_end_of(s: Seq<char>) -> Seq<char>
    decreases s.len(),
{
    if s.len() > 0 && is_white(s.last()) {
        trim_end_of(s.drop_last())
    } else {
        s
    }
}

/// `s` without the whitespace at its beginning.
pub open spec fn trim_start_of(s: Seq<char>) -> Seq<char>
    decreases s.len(),
{
    if s.len() > 0 && is_white(s[0]) {
        trim_start_of(s.drop_first())
    } else {
        s
    }
}

/// `s` without the whitespace at its two ends.
pub open spec fn trim_of(s: Seq<char>) -> Seq<char> {
    trim_start_of(trim_end_of(s))
}

/// A text whose last character is not whitespace does not trim away.
pub proof fn lemma_trim_keeps_ink(s: Seq<char>)
    requires
        s.len() > 0,
        !is_white(s.last()),
    ensures
        trim_of(s).len() > 0,
{
    assert(trim_end_of(s) == s);
    lemma_trim_start_keeps_ink(s);
}

proof fn lemma_trim_start_keeps_ink(s: Seq<char>)
    requires
        s.len() > 0,
        !is_white(s.last()),
    ensures
        trim_start_of(s).len() > 0,
    decreases s.len(),
{
    if is_white(s[0]) {
        assert(s.len() > 1);
        assert(s.drop_first().last() == s.last());
        lemma_trim_start_keeps_ink(s.drop_first());
    }
}

pub fn trim_end(s: &str) -> (r: String)
    ensures
        r@ == trim_end_of(s@),
{
    let v = chars_of(s);
    let mut b: usize = v.len();
    assert(v@.take(b as int) =~= v@);
    while b > 0 && is_whitespace(v[b - 1])
        invariant
            b <= v@.len(),
            v@ == s@,
            trim_end_of(s@) == trim_end_of(v@.take(b as int)),
        decreases b,
    {
        assert(v@.take(b as int).drop_last() =~= v@.take(b - 1));
        b -= 1;
    }
    assert(v@.take(b as int) =~= v@.subrange(0, b as int));
    string_between(&v, 0, b)
}

pub fn trim(s: &str) -> (r: String)
    ensures
        r@ == trim_of(s@),
{
    let t = trim_end(s);
    let v = chars_of(t.as_str());
    let mut a: usize = 0;
    assert(v@.skip(0) =~= v@);
    while a < v.len() && is_whitespace(v[a])
        invariant
            a <= v@.len(),
            v@ == t@,
            trim_start_of(t@) == trim_start_of(v@.skip(a as int)),
        decreases v@.len() - a,
    {
        assert(v@.skip(a as int).drop_first() =~= v@.skip(a + 1));
        a += 1;
    }
    assert(v@.skip(a as int) =~= v@.subrange(a as int, v@.len() as int));
    string_between(&v, a, v.len())
}

/// `s` without the run of `c` at its end.
pub open spec fn trim_end_char_of(s: Seq<char>, c: char) -> Seq<char>
    decreases s.len(),
{
    if s.len() > 0 && s.last() == c {
        trim_end_char_of(s.drop_last(), c)
    } else {
        s
    }
}

/// `s` without the run of `c` at its beginning.
pub open spec fn trim_start_char_of(s: Seq<char>, c: char) -> Seq<char>
    decreases s.len(),
{
    if s.len() > 0 && s[0] == c {
        trim_start_char_of(s.drop_first(), c)
    } else {
        s
    }
}

pub fn trim_end_char(s: &str, c: char) -> (r: String)
    ensures
        r@ == trim_end_char_of(s@, c),
{
    let v = chars_of(s);
    let mut b: usize = v.len();
    assert(v@.take(b as int) =~= v@);
    while b > 0 && v[b - 1] == c
        invariant
            b <= v@.len(),
            v@ == s@,
            trim_end_char_of(s@, c) == trim_end_char_of(v@.take(b as int), c),
        decreases b,
    {
        assert(v@.take(b as int).drop_last() =~= v@.take(b - 1));
        b -= 1;
    }
    assert(v@.take(b as int) =~= v@.subrange(0, b as int));
    string_between(&v, 0, b)
}

pub fn trim_start_char(s: &str, c: char) -> (r: String)
    ensures
        r@ == trim_start_char_of(s@, c),
{
    let v = chars_of(s);
    let mut a: usize = 0;
    assert(v@.skip(0) =~= v@);
    while a < v.len() && v[a] == c
        invariant
            a <= v@.len(),
            v@ == s@,
            trim_start_char_of(s@, c) == trim_start_char_of(v@.skip(a as int), c),
        decreases v@.len() - a,
    {
        assert(v@.skip(a as int).drop_first() =~= v@.skip(a + 1));
        a += 1;
    }
    assert(v@.skip(a as int) =~= v@.subrange(a as int, v@.len() as int));
    string_between(&v, a, v.len())
}

/// Trimming one end takes off the trimmed character and nothing else.
pub proof fn lemma_trim_end_char(s: Seq<char>, c: char)
    ensures
        trim_end_char_of(s, c).len() <= s.len(),
        trim_end_char_of(s, c) == s.take(trim_end_char_of(s, c).len() as int),
        trim_end_char_of(s, c).len() > 0 ==> trim_end_char_of(s, c).last() != c,
        forall|i: int| trim_end_char_of(s, c).len() <= i < s.len() ==> s[i] == c,
    decreases s.len(),
{
    if s.len() > 0 && s.last() == c {
        lemma_trim_end_char(s.drop_last(), c);
        assert(s.drop_last().take(trim_end_char_of(s, c).len() as int) =~= s.take(
            trim_end_char_of(s, c).len() as int,
        ));
        assert forall|i: int| trim_end_char_of(s, c).len() <= i < s.len() implies s[i] == c by {
            if i < s.len() - 1 {
                assert(s.drop_last()[i] == s[i]);
            }
        }
    } else {
        assert(s.take(s.len() as int) =~= s);
    }
}

/// The pieces of `s` between the separators: each separator begins a new piece, every other
/// character joins the last one.
pub open spec fn split_of(s: Seq<char>, sep: char) -> Seq<Seq<char>>
    decreases s.len(),
{
    if s.len() == 0 {
        seq![Seq::empty()]
    } else {
        let before = split_of(s.drop_last(), sep);
        if s.last() == sep {
            before.push(Seq::empty())
        } else {
            before.drop_last().push(before.last().push(s.last()))
        }
    }
}

pub fn split(s: &str, sep: char) -> (r: Vec<String>)
    ensures
        strs(r@) == split_of(s@, sep),
        r@.len() >= 1,
{
    let v = chars_of(s);
    let mut out: Vec<String> = Vec::new();
    let mut cur = String::new();
    assert(strs(out@).push(cur@) =~= split_of(v@.take(0), sep));
    for i in 0..v.len()
        invariant
            v@ == s@,
            strs(out@).push(cur@) == split_of(v@.take(i as int), sep),
    {
        broadcast use lemma_strs_push;

        assert(v@.take(i + 1).drop_last() =~= v@.take(i as int));
        let ghost before = split_of(v@.take(i as int), sep);
        assert(before.drop_last() =~= strs(out@));
        if v[i] == sep {
            out.push(cur);
            cur = String::new();
        } else {
            cur.push(v[i]);
        }
    }
    broadcast use lemma_strs_push;

    assert(v@.take(v@.len() as int) =~= v@);
    out.push(cur);
    out
}

/// The two sides of the first separator.
pub open spec fn split_once_of(s: Seq<char>, sep: char) -> Option<(Seq<char>, Seq<char>)> {
    match find_sub(s, seq![sep]) {
        Some(i) => Some((s.subrange(0, i), s.subrange(i + 1, s.len() as int))),
        None => None,
    }
}

pub fn split_once(s: &str, sep: char) -> (r: Option<(String, String)>)
    ensures
        match r {
            Some(p) => split_once_of(s@, sep) == Some((p.0@, p.1@)),
            None => split_once_of(s@, sep) is None,
        },
{
    let v = chars_of(s);
    let mut one: Vec<char> = Vec::new();
    one.push(sep);
    assert(one@ =~= seq![sep]);
    let n: usize = v.len();
    match find_in(&v, &one) {
        Some(i) => {
            assert(i + 1 <= n);
            Some((string_between(&v, 0, i), string_between(&v, i + 1, n)))
        },
        None => None,
    }
}

/// One trailing carriage return taken off.
pub open spec fn without_cr(s: Seq<char>) -> Seq<char> {
    if s.len() > 0 && s.last() == '\r' {
        s.drop_last()
    } else {
        s
    }
}

/// The lines of `s`: what stands before each line feed, less one carriage return, and what
/// follows the last line feed if anything does.
pub open spec fn lines_of(s: Seq<char>) -> Seq<Seq<char>> {
    let pieces = split_of(s, '\n');
    let closed = Seq::new((pieces.len() - 1) as nat, |i: int| without_cr(pieces[i]));
    if pieces.last().len() == 0 {
        closed
    } else {
        closed.push(pieces.last())
    }
}

pub fn lines(s: &str) -> (r: Vec<String>)
    ensures
        strs(r@) == lines_of(s@),
{
    let pieces = split(s, '\n');
    let ghost p = split_of(s@, '\n');
    let mut out: Vec<String> = Vec::new();
    let n: usize = pieces.len() - 1;
    for i in 0..n
        invariant
            n + 1 == pieces@.len(),
            strs(pieces@) == p,
            strs(out@) == Seq::new(i as nat, |k: int| without_cr(p[k])),
    {
        broadcast use lemma_strs_push;

        let piece = chars_of(pieces[i].as_str());
        assert(piece@ == p[i as int]);
        let k: usize = piece.len();
        if k > 0 && piece[k - 1] == '\r' {
            out.push(string_between(&piece, 0, k - 1));
        } else {
            out.push(string_of(&piece));
        }
        assert(strs(out@) =~= Seq::new((i + 1) as nat, |k: int| without_cr(p[k])));
    }
    broadcast use lemma_strs_push;

    let tail = pieces[n].clone();
    assert(tail@ == p.last());
    if !tail.as_str().is_empty() {
        out.push(tail);
    }
    out
}

/// The texts of `parts` with `sep` between each two.
pub open spec fn join_of(parts: Seq<Seq<char>>, sep: Seq<char>) -> Seq<char>
    decreases parts.len(),
{
    if parts.len() == 0 {
        Seq::empty()
    } else if parts.len() == 1 {
        parts[0]
    } else {
        join_of(parts.drop_last(), sep) + sep + parts.last()
    }
}

pub fn join(parts: &Vec<String>, sep: &str) -> (r: String)
    ensures
        r@ == join_of(strs(parts@), sep@),
{
    let mut out = String::new();
    for i in 0..parts.len()
        invariant
            out@ == join_of(strs(parts@).take(i as int), sep@),
    {
        assert(strs(parts@).take(i + 1).drop_last() =~= strs(parts@).take(i as int));
        if i > 0 {
            out.push_str(sep);
        }
        out.push_str(parts[i].as_str());
        proof {
            if i == 0 {
                assert(out@ =~= parts@[0]@);
            }
        }
    }
    assert(strs(parts@).take(parts@.len() as int) =~= strs(parts@));
    out
}

/// `s` with `with` in place of each `c`.
pub open spec fn replace_char_of(s: Seq<char>, c: char, with: Seq<char>) -> Seq<char>
    decreases s.len(),
{
    if s.len() == 0 {
        s
    } else {
        replace_char_of(s.drop_last(), c, with) + (if s.last() == c {
            with
        } else {
            seq![s.last()]
        })
    }
}

pub fn replace_char(s: &str, c: char, with: &str) -> (r: String)
    ensures
        r@ == replace_char_of(s@, c, with@),
{
    let v = chars_of(s);
    let mut out = String::new();
    for i in 0..v.len()
        invariant
            v@ == s@,
            out@ == replace_char_of(v@.take(i as int), c, with@),
    {
        assert(v@.take(i + 1).drop_last() =~= v@.take(i as int));
        if v[i] == c {
            out.push_str(with);
        } else {
            let ghost before = out@;
            out.push(v[i]);
            assert(out@ =~= before + seq![v@[i as int]]);
        }
    }
    assert(v@.take(v@.len() as int) =~= v@);
    out
}

/// The ASCII lowercase of `c`; any other character stays.
pub open spec fn ascii_lower(c: char) -> char {
    if 'A' <= c <= 'Z' {
        ((c as u8) + 32) as char
    } else {
        c
    }
}

/// Equal but for ASCII case.
pub open spec fn same_ascii(a: Seq<char>, b: Seq<char>) -> bool {
    a.len() == b.len() && forall|i: int| 0 <= i < a.len() ==> #[trigger] ascii_lower(a[i]) == ascii_lower(b[i])
}

pub fn to_ascii_lower(c: char) -> (r: char)
    ensures
        r == ascii_lower(c),
{
    if 'A' <= c && c <= 'Z' {
        let b: u8 = c as u8;
        (b + 32) as char
    } else {
        c
    }
}

pub fn eq_ignore_ascii_case(a: &[char], b: &[char]) -> (r: bool)
    ensures
        r == same_ascii(a@, b@),
{
    if a.len() != b.len() {
        return false;
    }
    for i in 0..a.len()
        invariant
            a@.len() == b@.len(),
            forall|j: int| 0 <= j < i ==> #[trigger] ascii_lower(a@[j]) == ascii_lower(b@[j]),
    {
        if to_ascii_lower(a[i]) != to_ascii_lower(b[i]) {
            assert(ascii_lower(a@[i as int]) != ascii_lower(b@[i as int]));
            return false;
        }
    }
    true
}

/// The decimal digits of `n`, most significant first, without leading zeros.
pub open spec fn decimal_of(n: nat) -> Seq<char>
    decreases n,
{
    if n < 10 {
        seq![digit_char(n)]
    } else {
        decimal_of(n / 10).push(digit_char(n % 10))
    }
}

/// The digit `0` to `9` for a number below ten.
pub open spec fn digit_char(d: nat) -> char {
    ((48 + d) as u8) as char
}

pub fn decimal(n: u64) -> (r: String)
    ensures
        r@ == decimal_of(n as nat),
    decreases n,
{
    if n < 10 {
        let mut s = String::new();
        let d: u8 = n as u8;
        s.push((48 + d) as char);
        assert(s@ =~= decimal_of(n as nat));
        s
    } else {
        let mut s = decimal(n / 10);
        let d: u8 = (n % 10) as u8;
        s.push((48 + d) as char);
        s
    }
}

/// `a` stands before `b` in the order of their code points, which is the order of their UTF-8
/// bytes.
pub open spec fn text_lt(a: Seq<char>, b: Seq<char>) -> bool
    decreases a.len(),
{
    if b.len() == 0 {
        false
    } else if a.len() == 0 {
        true
    } else if a[0] != b[0] {
        a[0] < b[0]
    } else {
        text_lt(a.drop_first(), b.drop_first())
    }
}

pub fn text_less(a: &str, b: &str) -> (r: bool)
    ensures
        r == text_lt(a@, b@),
{
    let x = chars_of(a);
    let y = chars_of(b);
    let mut i: usize = 0;
    assert(x@.skip(0) =~= x@);
    assert(y@.skip(0) =~= y@);
    while i < x.len() && i < y.len() && x[i] == y[i]
        invariant
            x@ == a@,
            y@ == b@,
            i <= x@.len(),
            i <= y@.len(),
            text_lt(a@, b@) == text_lt(x@.skip(i as int), y@.skip(i as int)),
        decreases x@.len() - i,
    {
        assert(x@.skip(i as int).drop_first() =~= x@.skip(i + 1));
        assert(y@.skip(i as int).drop_first() =~= y@.skip(i + 1));
        i += 1;
    }
    if i >= y.len() {
        false
    } else if i >= x.len() {
        true
    } else {
        x[i] < y[i]
    }
}

/// A text stands before whatever begins with it and goes on.
pub proof fn lemma_prefix_is_less(a: Seq<char>, more: Seq<char>)
    requires
        more.len() > 0,
    ensures
        text_lt(a, a + more),
    decreases a.len(),
{
    if a.len() > 0 {
        lemma_prefix_is_less(a.drop_first(), more);
        assert((a + more).drop_first() =~= a.drop_first() + more);
    }
}

pub proof fn lemma_text_lt_irreflexive(a: Seq<char>)
    ensures
        !text_lt(a, a),
    decreases a.len(),
{
    if a.len() > 0 {
        lemma_text_lt_irreflexive(a.drop_first());
    }
}

pub proof fn lemma_text_lt_transitive(a: Seq<char>, b: Seq<char>, c: Seq<char>)
    requires
        text_lt(a, b),
        text_lt(b, c),
    ensures
        text_lt(a, c),
    decreases a.len(),
{
    if a.len() > 0 && a[0] == b[0] && b[0] == c[0] {
        lemma_text_lt_transitive(a.drop_first(), b.drop_first(), c.drop_first());
    }
}

pub proof fn lemma_text_lt_total(a: Seq<char>, b: Seq<char>)
    ensures
        text_lt(a, b) || text_lt(b, a) || a == b,
    decreases a.len(),
{
    if a.len() == 0 || b.len() == 0 {
        assert(a.len() == 0 && b.len() == 0 ==> a =~= b);
    } else if a[0] == b[0] {
        lemma_text_lt_total(a.drop_first(), b.drop_first());
        if a.drop_first() == b.drop_first() {
            assert(a =~= seq![a[0]] + a.drop_first());
            assert(b =~= seq![b[0]] + b.drop_first());
        }
    }
}

/// The decimal form of an integer, with a minus sign where it is negative.
pub open spec fn signed_of(n: int) -> Seq<char> {
    if n < 0 {
        "-"@ + decimal_of((-n) as nat)
    } else {
        decimal_of(n as nat)
    }
}

pub fn signed(n: i64) -> (r: String)
    ensures
        r@ == signed_of(n as int),
{
    if n < 0 {
        let m: i128 = -(n as i128);
        let d = decimal(m as u64);
        cat2("-", d.as_str())
    } else {
        decimal(n as u64)
    }
}

/// `s` with spaces behind it up to `width` characters.
pub open spec fn padded(s: Seq<char>, width: nat) -> Seq<char> {
    if s.len() >= width {
        s
    } else {
        s + Seq::new((width - s.len()) as nat, |i: int| ' ')
    }
}

pub fn pad_end(s: &str, width: usize) -> (r: String)
    ensures
        r@ == padded(s@, width as nat),
{
    let mut out = s.to_owned();
    let n: usize = s.unicode_len();
    let mut i: usize = n;
    while i < width
        invariant
            n == s@.len(),
            i >= n,
            n < width ==> i <= width,
            n >= width ==> i == n,
            out@ == s@ + Seq::new((i - n) as nat, |k: int| ' '),
        decreases width - i,
    {
        let ghost before = out@;
        out.push(' ');
        i += 1;
        assert(out@ =~= s@ + Seq::new((i - n) as nat, |k: int| ' '));
    }
    assert(out@ =~= padded(s@, width as nat));
    out
}

/// The text in double quotes as `Debug` prints it, with its escapes.
pub uninterp spec fn debug_text(s: Seq<char>) -> Seq<char>;

/// `Debug` of a string slice. Claimed: what it prints depends on the text alone.
#[verifier::external_body]
pub(crate) fn debug_of(s: &str) -> (r: String)
    ensures
        r@ == debug_text(s@),
{
    format!("{s:?}")
}

/// The character in single quotes as `Debug` prints it, with its escapes.
pub uninterp spec fn debug_char(c: char) -> Seq<char>;

/// `Debug` of a character. Claimed: what it prints depends on the character alone.
#[verifier::external_body]
pub(crate) fn debug_of_char(c: char) -> (r: String)
    ensures
        r@ == debug_char(c),
{
    format!("{c:?}")
}

/// Splitting and joining again gives the text back, and no piece holds the separator.
pub proof fn splitting_undoes_joining(s: Seq<char>, sep: char)
    ensures
        split_of(s, sep).len() > 0,
        join_of(split_of(s, sep), seq![sep]) == s,
        forall|i: int|
            0 <= i < split_of(s, sep).len() ==> !(#[trigger] split_of(s, sep)[i]).contains(sep),
    decreases s.len(),
{
    let parts = split_of(s, sep);
    if s.len() == 0 {
        assert(parts =~= seq![Seq::empty()]);
        lemma_join_one(Seq::empty(), seq![sep]);
        assert(join_of(parts, seq![sep]) =~= s);
    } else {
        let rest = s.drop_last();
        splitting_undoes_joining(rest, sep);
        let before = split_of(rest, sep);
        assert(before =~= before.drop_last().push(before.last()));
        lemma_join_push(before.drop_last(), before.last(), seq![sep]);
        assert(s =~= rest.push(s.last()));
        if s.last() == sep {
            lemma_join_push(before, Seq::empty(), seq![sep]);
            assert(join_of(parts, seq![sep]) =~= s);
        } else {
            let more = before.last().push(s.last());
            lemma_join_push(before.drop_last(), more, seq![sep]);
            assert(join_of(parts, seq![sep]) =~= s);
        }
        assert forall|i: int| 0 <= i < parts.len() implies !(#[trigger] parts[i]).contains(sep) by {
            if i < before.len() {
                assert(!before[i].contains(sep));
            }
            if s.last() != sep && i == parts.len() - 1 {
                if parts[i].contains(sep) {
                    let j = choose|j: int| 0 <= j < parts[i].len() && parts[i][j] == sep;
                    assert(before[i][j] == sep);
                }
            }
        }
    }
}

proof fn lemma_join_one(p: Seq<char>, sep: Seq<char>)
    ensures
        join_of(seq![p], sep) == p,
{
    reveal_with_fuel(join_of, 3);
    assert(seq![p].drop_last() =~= Seq::<Seq<char>>::empty());
    assert(seq![p].drop_first() =~= Seq::<Seq<char>>::empty());
    assert(join_of(seq![p], sep) =~= p);
}

proof fn lemma_join_push(parts: Seq<Seq<char>>, p: Seq<char>, sep: Seq<char>)
    ensures
        parts.len() > 0 ==> join_of(parts.push(p), sep) == join_of(parts, sep) + sep + p,
        parts.len() == 0 ==> join_of(parts.push(p), sep) == p,
    decreases parts.len(),
{
    if parts.len() == 0 {
        assert(parts.push(p) =~= seq![p]);
        lemma_join_one(p, sep);
    } else {
        assert(parts.push(p).drop_last() =~= parts);
    }
}

/// Trimming the end takes off whitespace and nothing else, and all of it.
pub proof fn trimming_the_end_takes_off_whitespace(s: Seq<char>)
    ensures
        trim_end_of(s).is_prefix_of(s),
        trim_end_of(s).len() > 0 ==> !is_white(trim_end_of(s).last()),
        forall|i: int| trim_end_of(s).len() <= i < s.len() ==> is_white(#[trigger] s[i]),
    decreases s.len(),
{
    if s.len() > 0 && is_white(s.last()) {
        let rest = s.drop_last();
        trimming_the_end_takes_off_whitespace(rest);
        assert forall|i: int| trim_end_of(s).len() <= i < s.len() implies is_white(
            #[trigger] s[i],
        ) by {
            if i < rest.len() {
                assert(rest[i] == s[i]);
            }
        }
        assert(s.take(trim_end_of(s).len() as int) =~= rest.take(trim_end_of(s).len() as int));
        assert(trim_end_of(s) =~= s.subrange(0, trim_end_of(s).len() as int));
    } else {
        assert(s.subrange(0, s.len() as int) =~= s);
    }
}

/// Trimming the beginning takes off whitespace and nothing else, and all of it.
pub proof fn trimming_the_beginning_takes_off_whitespace(s: Seq<char>)
    ensures
        trim_start_of(s).len() <= s.len(),
        trim_start_of(s) == s.skip(s.len() - trim_start_of(s).len()),
        trim_start_of(s).len() > 0 ==> !is_white(trim_start_of(s)[0]),
        forall|i: int| 0 <= i < s.len() - trim_start_of(s).len() ==> is_white(#[trigger] s[i]),
    decreases s.len(),
{
    if s.len() > 0 && is_white(s[0]) {
        let rest = s.drop_first();
        trimming_the_beginning_takes_off_whitespace(rest);
        let t = trim_start_of(s);
        assert(rest.skip(rest.len() - t.len()) =~= s.skip(s.len() - t.len()));
        assert forall|i: int| 0 <= i < s.len() - t.len() implies is_white(#[trigger] s[i]) by {
            if i > 0 {
                assert(rest[i - 1] == s[i]);
            }
        }
    } else {
        assert(s.skip(0) =~= s);
    }
}

/// A trimmed text is what stands between two runs of whitespace, with none at its own ends.
pub proof fn a_trimmed_text_stands_between_whitespace(s: Seq<char>)
    ensures
        exists|a: Seq<char>, b: Seq<char>|
            s == #[trigger] (a + trim_of(s) + b) && (forall|i: int|
                0 <= i < a.len() ==> is_white(#[trigger] a[i])) && (forall|i: int|
                0 <= i < b.len() ==> is_white(#[trigger] b[i])),
        trim_of(s).len() > 0 ==> !is_white(trim_of(s)[0]) && !is_white(trim_of(s).last()),
{
    let e = trim_end_of(s);
    let t = trim_of(s);
    trimming_the_end_takes_off_whitespace(s);
    trimming_the_beginning_takes_off_whitespace(e);
    let a = e.take(e.len() - t.len());
    let b = s.skip(e.len() as int);
    assert(e =~= a + t);
    assert(s =~= e + b);
    assert forall|i: int| 0 <= i < b.len() implies is_white(#[trigger] b[i]) by {
        assert(is_white(s[e.len() + i]));
    }
    assert(s =~= a + t + b);
    if t.len() > 0 {
        assert(t.last() == e.last());
    }
}

/// What is put before a text comes off again, and nothing else does.
pub proof fn a_prefix_comes_off_where_it_stands(s: Seq<char>, front: Seq<char>, rest: Seq<char>)
    ensures
        after_prefix(s, front) == Some(rest) <==> s == front + rest,
        before_suffix(s, front) == Some(rest) <==> s == rest + front,
        begins(front + rest, front),
        ends(rest + front, front),
{
    if s == front + rest {
        assert(s.subrange(0, front.len() as int) =~= front);
        assert(s.subrange(front.len() as int, s.len() as int) =~= rest);
    }
    if s == rest + front {
        assert(s.subrange(rest.len() as int, s.len() as int) =~= front);
        assert(s.subrange(s.len() - front.len(), s.len() as int) =~= front);
        assert(s.subrange(0, rest.len() as int) =~= rest);
        assert(s.subrange(0, s.len() - front.len()) =~= rest);
    }
    if after_prefix(s, front) == Some(rest) {
        assert(s =~= front + rest);
    }
    if before_suffix(s, front) == Some(rest) {
        assert(s =~= rest + front);
    }
    assert((front + rest).subrange(0, front.len() as int) =~= front);
    assert((rest + front).subrange(rest.len() as int, (rest + front).len() as int) =~= front);
}

/// Texts are ordered by the first character in which they differ.
pub proof fn the_first_difference_orders_texts(
    front: Seq<char>,
    a: char,
    b: char,
    x: Seq<char>,
    y: Seq<char>,
)
    requires
        a < b,
    ensures
        text_lt(front + seq![a] + x, front + seq![b] + y),
        !text_lt(front + seq![b] + y, front + seq![a] + x),
    decreases front.len(),
{
    let s = front + seq![a] + x;
    let t = front + seq![b] + y;
    if front.len() > 0 {
        let rest = front.drop_first();
        the_first_difference_orders_texts(rest, a, b, x, y);
        assert(s.drop_first() =~= rest + seq![a] + x);
        assert(t.drop_first() =~= rest + seq![b] + y);
        assert(s[0] == front[0] && t[0] == front[0]);
    } else {
        assert(s[0] == a && t[0] == b);
    }
}

/// Two texts are the same but for ASCII case where each pair of characters is equal or the two cases
/// of one letter.
pub proof fn ascii_case_is_all_that_may_differ(a: Seq<char>, b: Seq<char>)
    requires
        a.len() == b.len(),
    ensures
        same_ascii(a, b) <==> forall|i: int|
            0 <= i < a.len() ==> #[trigger] a[i] == b[i] || ('A' <= a[i] && a[i] <= 'Z' && b[i] as u32
                == a[i] as u32 + 32) || ('A' <= b[i] && b[i] <= 'Z' && a[i] as u32 == b[i] as u32
                + 32),
{
    assert forall|i: int| 0 <= i < a.len() implies (ascii_lower(#[trigger] a[i]) == ascii_lower(
        b[i],
    ) <==> (a[i] == b[i] || ('A' <= a[i] && a[i] <= 'Z' && b[i] as u32 == a[i] as u32 + 32) || ('A'
        <= b[i] && b[i] <= 'Z' && a[i] as u32 == b[i] as u32 + 32))) by {
        lemma_ascii_pair(a[i], b[i]);
    }
}

proof fn lemma_ascii_pair(a: char, b: char)
    ensures
        ascii_lower(a) == ascii_lower(b) <==> (a == b || ('A' <= a && a <= 'Z' && b as u32 == a as u32
            + 32) || ('A' <= b && b <= 'Z' && a as u32 == b as u32 + 32)),
{
}

/// A padded text begins with the text, goes on with blanks, and is as wide as was asked, or as the
/// text where that is wider.
pub proof fn padding_adds_blanks_behind(s: Seq<char>, width: nat)
    ensures
        s.is_prefix_of(padded(s, width)),
        padded(s, width).len() == (if s.len() < width {
            width
        } else {
            s.len()
        }),
        forall|i: int| s.len() <= i < padded(s, width).len() ==> padded(s, width)[i] == ' ',
{
    assert(padded(s, width).subrange(0, s.len() as int) =~= s);
}

/// What stands before the first separator is the first piece, and the rest is split for itself.
pub proof fn the_first_piece_stands_before_the_separator(
    front: Seq<char>,
    sep: char,
    rest: Seq<char>,
)
    requires
        !front.contains(sep),
    ensures
        split_of(front, sep) == seq![front],
        split_of(front + seq![sep] + rest, sep) == seq![front] + split_of(rest, sep),
    decreases front.len() + rest.len(),
{
    let s = front + seq![sep] + rest;
    if rest.len() > 0 {
        let r = rest.drop_last();
        the_first_piece_stands_before_the_separator(front, sep, r);
        assert(s.drop_last() =~= front + seq![sep] + r);
        splitting_undoes_joining(r, sep);
        assert(split_of(s, sep) =~= seq![front] + split_of(rest, sep));
    } else {
        if front.len() > 0 {
            let f = front.drop_last();
            assert(front[front.len() - 1] == front.last());
            assert(!f.contains(sep)) by {
                if f.contains(sep) {
                    let i = choose|i: int| 0 <= i < f.len() && f[i] == sep;
                    assert(front[i] == sep);
                }
            }
            the_first_piece_stands_before_the_separator(f, sep, Seq::empty());
            assert(front.contains(front.last()));
            assert(split_of(front, sep) =~= seq![f.push(front.last())]);
            assert(f.push(front.last()) =~= front);
        } else {
            assert(front =~= Seq::empty());
            assert(split_of(front, sep) =~= seq![front]);
        }
        assert(s.drop_last() =~= front);
        assert(split_of(rest, sep) =~= seq![Seq::<char>::empty()]);
        assert(split_of(s, sep) =~= seq![front] + split_of(rest, sep));
    }
}

/// The lines of a text are what stands before its first line feed, less one carriage return at its
/// end, and the lines of the rest; a text without a line feed is one line, or none where it is
/// empty.
pub proof fn the_first_line_stands_before_the_line_feed(front: Seq<char>, rest: Seq<char>)
    requires
        !front.contains('\n'),
    ensures
        lines_of(front + seq!['\n'] + rest) == seq![
            if front.len() > 0 && front.last() == '\r' {
                front.drop_last()
            } else {
                front
            },
        ] + lines_of(rest),
        front.len() > 0 ==> lines_of(front) == seq![front],
        lines_of(Seq::<char>::empty()).len() == 0,
{
    the_first_piece_stands_before_the_separator(front, '\n', rest);
    splitting_undoes_joining(rest, '\n');
    let s = front + seq!['\n'] + rest;
    let p = split_of(s, '\n');
    let q = split_of(rest, '\n');
    assert(p.last() == q.last());
    assert(lines_of(s) =~= seq![
        if front.len() > 0 && front.last() == '\r' {
            front.drop_last()
        } else {
            front
        },
    ] + lines_of(rest));
    if front.len() > 0 {
        assert(lines_of(front) =~= seq![front]);
    }
    assert(split_of(Seq::<char>::empty(), '\n') =~= seq![Seq::<char>::empty()]);
}

proof fn lemma_value_push(digits: Seq<char>, d: nat)
    requires
        d < 10,
    ensures
        decimal_value(digits.push(digit_char(d))) == decimal_value(digits) * 10 + d,
{
    assert(digits.push(digit_char(d)).drop_last() =~= digits);
}

/// The number that decimal digits stand for.
pub open spec fn decimal_value(digits: Seq<char>) -> nat
    decreases digits.len(),
{
    if digits.len() == 0 {
        0
    } else {
        (decimal_value(digits.drop_last()) * 10 + (digits.last() as int - 48)) as nat
    }
}

/// The digits of a number stand for it, and it has no leading zero but where it is zero.
pub proof fn the_digits_of_a_number_stand_for_it(n: nat)
    ensures
        decimal_value(decimal_of(n)) == n,
        decimal_of(n).len() > 0,
        decimal_of(n)[0] == '0' ==> n == 0,
        forall|i: int|
            0 <= i < decimal_of(n).len() ==> '0' <= #[trigger] decimal_of(n)[i] && decimal_of(n)[i]
                <= '9',
    decreases n,
{
    if n < 10 {
        reveal_with_fuel(decimal_value, 2);
        assert(seq![digit_char(n)].drop_last() =~= Seq::<char>::empty());
    } else {
        the_digits_of_a_number_stand_for_it(n / 10);
        lemma_value_push(decimal_of(n / 10), n % 10);
    }
}

/// Replacing a character leaves none of it, unless what replaces it holds it, and takes a text apart
/// by its pieces.
pub proof fn replacing_works_piece_by_piece(a: Seq<char>, c: char, with: Seq<char>, b: Seq<char>)
    ensures
        replace_char_of(a + b, c, with) == replace_char_of(a, c, with) + replace_char_of(
            b,
            c,
            with,
        ),
        !a.contains(c) ==> replace_char_of(a, c, with) == a,
        replace_char_of(seq![c], c, with) == with,
    decreases a.len() + b.len(),
{
    reveal_with_fuel(replace_char_of, 2);
    assert(seq![c].drop_last() =~= Seq::<char>::empty());
    assert(replace_char_of(seq![c], c, with) =~= with);
    if b.len() > 0 {
        replacing_works_piece_by_piece(a, c, with, b.drop_last());
        assert((a + b).drop_last() =~= a + b.drop_last());
        assert(replace_char_of(a + b, c, with) =~= replace_char_of(a, c, with) + replace_char_of(
            b,
            c,
            with,
        ));
    } else {
        assert(a + b =~= a);
        if a.len() > 0 {
            let r = a.drop_last();
            replacing_works_piece_by_piece(r, c, with, b);
            if !a.contains(c) {
                assert(a[a.len() - 1] == a.last());
                assert(!r.contains(c)) by {
                    if r.contains(c) {
                        let i = choose|i: int| 0 <= i < r.len() && r[i] == c;
                        assert(a[i] == c);
                    }
                }
                assert(replace_char_of(a, c, with) =~= a);
            }
        }
        assert(replace_char_of(a, c, with) + replace_char_of(b, c, with) =~= replace_char_of(
            a,
            c,
            with,
        ));
    }
}

/// A number is written by its digits, with a dash before them where it is negative.
pub proof fn a_negative_number_has_a_dash(n: nat)
    ensures
        signed_of(n as int) == decimal_of(n),
        n > 0 ==> signed_of(-n) == seq!['-'] + decimal_of(n),
{
    reveal_strlit("-");
    assert("-"@ =~= seq!['-']);
}

} // verus!
