//! The grammar of MCP connection labels.

use vstd::prelude::*;

use crate::digest::hex_encode;
use crate::digest::hex_of;
use crate::digest::lemma_hex_digits;
use crate::digest::sha256;
use crate::digest::sha256_of;
use crate::text::chars_of;
use crate::text::string_between;
use crate::text::trim_end_char;
use crate::text::trim_end_char_of;
use crate::text::trim_start_char;
use crate::text::trim_start_char_of;

verus! {

/// The longest label, in bytes.
pub const CONNECTION_LABEL_MAX_BYTES: usize = 64;

/// The characters a label is made of.
pub open spec fn is_label_char(c: char) -> bool {
    ('a' <= c <= 'z') || ('0' <= c <= '9') || c == '-'
}

/// At most 64 bytes of lowercase `a-z`, `0-9` and `-`.
pub open spec fn is_label(s: Seq<char>) -> bool {
    s.len() <= CONNECTION_LABEL_MAX_BYTES && forall|i: int|
        0 <= i < s.len() ==> is_label_char(#[trigger] s[i])
}

/// Is `s` a connection label? Every character of one is ASCII, so its bytes are counted by its
/// characters.
pub fn valid_label(s: &str) -> (r: bool)
    ensures
        r == is_label(s@),
{
    let v = chars_of(s);
    if v.len() > CONNECTION_LABEL_MAX_BYTES {
        return false;
    }
    for i in 0..v.len()
        invariant
            v@ == s@,
            forall|j: int| 0 <= j < i ==> is_label_char(#[trigger] s@[j]),
    {
        let c: char = v[i];
        if !(('a' <= c && c <= 'z') || ('0' <= c && c <= '9') || c == '-') {
            assert(!is_label_char(s@[i as int]));
            return false;
        }
    }
    true
}

/// What a character of a free-form name becomes in a label: letters and digits stay, the common
/// separators become a dash, anything else goes.
pub open spec fn label_char(c: char) -> Option<char> {
    if ('a' <= c <= 'z') || ('0' <= c <= '9') {
        Some(c)
    } else if c == ' ' || c == '_' || c == '.' || c == '-' {
        Some('-')
    } else {
        None
    }
}

/// The label characters of a lowercase name, runs of dashes collapsed into one.
pub open spec fn label_chars(s: Seq<char>) -> Seq<char>
    decreases s.len(),
{
    if s.len() == 0 {
        s
    } else {
        let before = label_chars(s.drop_last());
        match label_char(s.last()) {
            None => before,
            Some(m) => if m == '-' && before.len() > 0 && before.last() == '-' {
                before
            } else {
                before.push(m)
            },
        }
    }
}

/// The first 64 characters of `s`.
pub open spec fn capped(s: Seq<char>) -> Seq<char> {
    if s.len() > CONNECTION_LABEL_MAX_BYTES {
        s.take(CONNECTION_LABEL_MAX_BYTES as int)
    } else {
        s
    }
}

/// The label of a lowercase name, and `fallback` where nothing of the name is left.
pub open spec fn label_of(lowered: Seq<char>, fallback: Seq<char>) -> Seq<char> {
    let kept = trim_end_char_of(trim_start_char_of(capped(label_chars(lowered)), '-'), '-');
    if kept.len() == 0 {
        fallback
    } else {
        kept
    }
}

/// Derive the label of a name that is already lowercase.
pub fn label_of_lowered(lowered: &str, fallback: &str) -> (r: String)
    ensures
        r@ == label_of(lowered@, fallback@),
{
    let v = chars_of(lowered);
    let mut out: Vec<char> = Vec::new();
    for i in 0..v.len()
        invariant
            v@ == lowered@,
            out@ == label_chars(v@.take(i as int)),
    {
        assert(v@.take(i + 1).drop_last() =~= v@.take(i as int));
        let c: char = v[i];
        if ('a' <= c && c <= 'z') || ('0' <= c && c <= '9') {
            out.push(c);
        } else if c == ' ' || c == '_' || c == '.' || c == '-' {
            if !(out.len() > 0 && out[out.len() - 1] == '-') {
                out.push('-');
            }
        }
    }
    assert(v@.take(v@.len() as int) =~= v@);
    let n: usize = if out.len() > CONNECTION_LABEL_MAX_BYTES {
        CONNECTION_LABEL_MAX_BYTES
    } else {
        out.len()
    };
    let cut = string_between(&out, 0, n);
    assert(cut@ =~= capped(label_chars(lowered@)));
    let head = trim_start_char(cut.as_str(), '-');
    let kept = trim_end_char(head.as_str(), '-');
    if kept.as_str().is_empty() {
        fallback.to_owned()
    } else {
        kept
    }
}

/// What `str::to_lowercase` makes of a text.
pub uninterp spec fn lowercased(s: Seq<char>) -> Seq<char>;

/// `str::to_lowercase`. Claimed: the result depends on the text alone, and a text of lowercase
/// ASCII letters, digits and dashes stays as it is.
#[verifier::external_body]
pub(crate) fn to_lowercase(s: &str) -> (r: String)
    ensures
        r@ == lowercased(s@),
        (forall|i: int| 0 <= i < s@.len() ==> is_label_char(#[trigger] s@[i])) ==> r@ == s@,
{
    s.to_lowercase()
}

/// The label of a name of which nothing survives: its digest keeps differently named projects on
/// different connections.
pub open spec fn hashed_label(name: Seq<char>) -> Seq<char> {
    "project-"@ + hex_of(sha256_of(vstd::utf8::encode_utf8(name)).take(4))
}

/// A label that has something to show: no dash at either end and no two in a row.
pub open spec fn is_tidy(s: Seq<char>) -> bool {
    &&& is_label(s)
    &&& s.len() > 0
    &&& s[0] != '-'
    &&& s.last() != '-'
    &&& single_dashes(s)
}

pub open spec fn single_dashes(s: Seq<char>) -> bool {
    forall|i: int, j: int|
        0 <= i < s.len() && j == i + 1 && j < s.len() && #[trigger] s[i] == '-' ==> #[trigger] s[j]
            != '-'
}

/// A character that a label keeps for itself.
pub open spec fn is_kept(c: char) -> bool {
    ('a' <= c <= 'z') || ('0' <= c <= '9')
}

/// Derive a connection label from a free-form name. Deriving again from a label changes nothing,
/// and a name of which nothing survives gets a label of its own.
pub fn sanitize_label(name: &str) -> (r: String)
    ensures
        r@ == label_of(lowercased(name@), hashed_label(name@)),
        is_tidy(r@),
        is_tidy(name@) ==> r@ == name@,
        (forall|i: int|
            0 <= i < lowercased(name@).len() ==> !is_kept(#[trigger] lowercased(name@)[i]))
            ==> r@ == hashed_label(name@),
{
    let lowered = to_lowercase(name);
    let d = sha256(name.as_bytes());
    let mut first: Vec<u8> = Vec::new();
    for i in 0..4
        invariant
            d@.len() == 32,
            first@ == d@.take(i as int),
    {
        first.push(d[i]);
    }
    let h = hex_encode(&first);
    let mut fallback = "project-".to_owned();
    fallback.push_str(h.as_str());
    proof {
        reveal_strlit("project-");
        lemma_hex_digits(first@);
        lemma_fallback_is_tidy(h@);
        derived_labels_satisfy_the_grammar(lowered@, fallback@);
        if is_tidy(name@) {
            a_label_derives_itself(name@, fallback@);
        }
        if forall|i: int|
            0 <= i < lowercased(name@).len() ==> !is_kept(#[trigger] lowercased(name@)[i]) {
            lemma_nothing_kept(lowered@);
        }
    }
    label_of_lowered(lowered.as_str(), fallback.as_str())
}

proof fn lemma_fallback_is_tidy(h: Seq<char>)
    requires
        0 < h.len() <= 8,
        forall|i: int| 0 <= i < h.len() ==> is_kept(#[trigger] h[i]),
    ensures
        is_tidy("project-"@ + h),
{
    reveal_strlit("project-");
    let s = "project-"@ + h;
    assert(s.last() == h.last());
    assert forall|i: int| 0 <= i < s.len() implies is_label_char(#[trigger] s[i]) by {
        if i >= 8 {
            assert(s[i] == h[i - 8]);
        }
    }
    assert forall|i: int, j: int|
        0 <= i < s.len() && j == i + 1 && j < s.len() && #[trigger] s[i] == '-' implies
        #[trigger] s[j] != '-' by {
        if i >= 8 {
            assert(s[i] == h[i - 8]);
        } else if j >= 8 {
            assert(s[j] == h[j - 8]);
        }
    }
}

proof fn lemma_label_chars(s: Seq<char>)
    ensures
        forall|i: int|
            0 <= i < label_chars(s).len() ==> is_label_char(#[trigger] label_chars(s)[i]),
        single_dashes(label_chars(s)),
    decreases s.len(),
{
    if s.len() > 0 {
        let before = label_chars(s.drop_last());
        let all = label_chars(s);
        lemma_label_chars(s.drop_last());
        assert forall|i: int| 0 <= i < all.len() implies is_label_char(#[trigger] all[i]) by {
            if i < before.len() {
                assert(all[i] == before[i]);
            }
        }
        assert forall|i: int, j: int|
            0 <= i < all.len() && j == i + 1 && j < all.len() && #[trigger] all[i] == '-' implies
            #[trigger] all[j] != '-' by {
            assert(all[i] == before[i]);
            if j < before.len() {
                assert(all[j] == before[j]);
            }
        }
    }
}

proof fn lemma_trim_start(s: Seq<char>)
    ensures
        trim_start_char_of(s, '-').len() <= s.len(),
        trim_start_char_of(s, '-') == s.skip(s.len() - trim_start_char_of(s, '-').len()),
        trim_start_char_of(s, '-').len() > 0 ==> trim_start_char_of(s, '-')[0] != '-',
    decreases s.len(),
{
    if s.len() > 0 && s[0] == '-' {
        let rest = s.drop_first();
        lemma_trim_start(rest);
        let t = trim_start_char_of(s, '-');
        assert(rest.skip(rest.len() - t.len()) =~= s.skip(s.len() - t.len()));
    } else {
        assert(s.skip(0) =~= s);
    }
}

/// Whatever the name, the label derived from it satisfies the grammar and has no dash at either
/// end nor two in a row, as long as the fallback is such a label.
pub proof fn derived_labels_satisfy_the_grammar(lowered: Seq<char>, fallback: Seq<char>)
    requires
        is_tidy(fallback),
    ensures
        is_tidy(label_of(lowered, fallback)),
{
    lemma_label_chars(lowered);
    let all = label_chars(lowered);
    let cut = capped(all);
    lemma_trim_start(cut);
    let head = trim_start_char_of(cut, '-');
    crate::text::lemma_trim_end_char(head, '-');
    let kept = trim_end_char_of(head, '-');
    let off = cut.len() - head.len();
    assert forall|i: int| 0 <= i < kept.len() implies #[trigger] kept[i] == all[off + i] by {
        assert(kept[i] == head[i]);
        assert(head[i] == cut[off + i]);
    }
    if kept.len() > 0 {
        assert(kept[0] == head[0]);
        assert forall|i: int| 0 <= i < kept.len() implies is_label_char(#[trigger] kept[i]) by {
            assert(kept[i] == all[off + i]);
        }
        assert forall|i: int, j: int|
            0 <= i < kept.len() && j == i + 1 && j < kept.len() && #[trigger] kept[i] == '-' implies
            #[trigger] kept[j] != '-' by {
            assert(all[off + i] == '-');
            assert(kept[j] == all[off + j]);
        }
    }
}

/// The label derived from a label is the label.
pub proof fn a_label_derives_itself(label: Seq<char>, fallback: Seq<char>)
    requires
        is_tidy(label),
    ensures
        label_of(label, fallback) == label,
{
    lemma_label_stays(label);
}

proof fn lemma_label_stays(s: Seq<char>)
    requires
        forall|i: int| 0 <= i < s.len() ==> is_label_char(#[trigger] s[i]),
        single_dashes(s),
    ensures
        label_chars(s) == s,
    decreases s.len(),
{
    if s.len() > 0 {
        let before = s.drop_last();
        assert forall|i: int, j: int|
            0 <= i < before.len() && j == i + 1 && j < before.len() && #[trigger] before[i] == '-'
                implies #[trigger] before[j] != '-' by {
            assert(s[i] == '-' && s[j] == before[j]);
        }
        lemma_label_stays(before);
        if s.last() == '-' && before.len() > 0 {
            assert(before.last() == s[s.len() - 2]);
            assert(s[s.len() - 1] == '-');
        }
        assert(before.push(s.last()) =~= s);
    }
}

/// Of a name without letters and digits no label is left.
proof fn lemma_nothing_kept(lowered: Seq<char>)
    requires
        forall|i: int| 0 <= i < lowered.len() ==> !is_kept(#[trigger] lowered[i]),
    ensures
        forall|fallback: Seq<char>| #[trigger] label_of(lowered, fallback) == fallback,
{
    lemma_only_a_dash(lowered);
    let all = label_chars(lowered);
    assert(capped(all) == all);
    lemma_trim_start(all);
    let head = trim_start_char_of(all, '-');
    if head.len() > 0 {
        assert(head[0] == all[all.len() - head.len()]);
    }
    assert(head.len() == 0);
    assert(trim_end_char_of(head, '-').len() == 0);
}

proof fn lemma_only_a_dash(s: Seq<char>)
    requires
        forall|i: int| 0 <= i < s.len() ==> !is_kept(#[trigger] s[i]),
    ensures
        label_chars(s).len() <= 1,
        label_chars(s).len() == 1 ==> label_chars(s)[0] == '-',
    decreases s.len(),
{
    if s.len() > 0 {
        assert forall|i: int| 0 <= i < s.drop_last().len() implies !is_kept(
            #[trigger] s.drop_last()[i],
        ) by {
            assert(s[i] == s.drop_last()[i]);
        }
        lemma_only_a_dash(s.drop_last());
        assert(!is_kept(s[s.len() - 1]));
    }
}

proof fn lemma_kept_chars_stay(x: Seq<char>, y: Seq<char>)
    requires
        forall|i: int| 0 <= i < y.len() ==> is_kept(#[trigger] y[i]),
    ensures
        label_chars(x + y) == label_chars(x) + y,
    decreases y.len(),
{
    if y.len() == 0 {
        assert(x + y =~= x);
        assert(label_chars(x) + y =~= label_chars(x));
    } else {
        let rest = y.drop_last();
        assert forall|i: int| 0 <= i < rest.len() implies is_kept(#[trigger] rest[i]) by {
            assert(rest[i] == y[i]);
        }
        lemma_kept_chars_stay(x, rest);
        assert((x + y).drop_last() =~= x + rest);
        assert(is_kept(y[y.len() - 1]));
        assert((x + y).last() == y.last());
        assert(label_chars(x) + y =~= (label_chars(x) + rest).push(y.last()));
    }
}

proof fn lemma_words_are_trimmed(s: Seq<char>)
    requires
        s.len() > 0,
        is_kept(s[0]),
        is_kept(s.last()),
    ensures
        trim_end_char_of(trim_start_char_of(s, '-'), '-') == s,
{
}

/// Two words of a name are joined by one dash where a blank, an underscore, a dot or a dash, or more
/// of them, stood between them, and by nothing where anything else did.
pub proof fn words_are_joined_by_a_dash(
    a: Seq<char>,
    between: char,
    b: Seq<char>,
    fallback: Seq<char>,
)
    requires
        a.len() > 0,
        b.len() > 0,
        a.len() + 1 + b.len() <= 64,
        forall|i: int|
            0 <= i < a.len() ==> ('a' <= #[trigger] a[i] && a[i] <= 'z') || ('0' <= a[i] && a[i]
                <= '9'),
        forall|i: int|
            0 <= i < b.len() ==> ('a' <= #[trigger] b[i] && b[i] <= 'z') || ('0' <= b[i] && b[i]
                <= '9'),
    ensures
        between == ' ' || between == '_' || between == '.' || between == '-' ==> label_of(
            a + seq![between] + b,
            fallback,
        ) == a + seq!['-'] + b && label_of(a + seq![between, between] + b, fallback) == a + seq![
            '-',
        ] + b,
        !(('a' <= between && between <= 'z') || ('0' <= between && between <= '9') || between == ' '
            || between == '_' || between == '.' || between == '-') ==> label_of(
            a + seq![between] + b,
            fallback,
        ) == a + b,
{
    assert(forall|i: int| 0 <= i < a.len() ==> is_kept(#[trigger] a[i]));
    assert(forall|i: int| 0 <= i < b.len() ==> is_kept(#[trigger] b[i]));
    lemma_kept_chars_stay(Seq::empty(), a);
    assert(Seq::<char>::empty() + a =~= a);
    let one = a.push(between);
    let two = one.push(between);
    assert(a + seq![between] =~= one);
    assert(a + seq![between, between] =~= two);
    assert(one.drop_last() =~= a);
    assert(two.drop_last() =~= one);
    lemma_kept_chars_stay(one, b);
    lemma_kept_chars_stay(two, b);
    let dashed = a + seq!['-'] + b;
    assert(a.push('-') + b =~= dashed);
    assert(dashed[0] == a[0] && dashed.last() == b.last());
    lemma_words_are_trimmed(dashed);
    assert((a + b)[0] == a[0] && (a + b).last() == b.last());
    lemma_words_are_trimmed(a + b);
}

/// A word that fits is its own label, and of a longer one the first sixty-four characters are.
pub proof fn a_word_is_cut_where_it_is_too_long(a: Seq<char>, fallback: Seq<char>)
    requires
        a.len() > 0,
        forall|i: int|
            0 <= i < a.len() ==> ('a' <= #[trigger] a[i] && a[i] <= 'z') || ('0' <= a[i] && a[i]
                <= '9'),
    ensures
        a.len() <= 64 ==> label_of(a, fallback) == a,
        a.len() > 64 ==> label_of(a, fallback) == a.take(64),
{
    assert(forall|i: int| 0 <= i < a.len() ==> is_kept(#[trigger] a[i]));
    lemma_kept_chars_stay(Seq::empty(), a);
    assert(Seq::<char>::empty() + a =~= a);
    if a.len() <= 64 {
        assert(is_kept(a[a.len() - 1]));
        lemma_words_are_trimmed(a);
    } else {
        assert(a.take(64).last() == a[63]);
        lemma_words_are_trimmed(a.take(64));
    }
}

/// A connection label is at most sixty-four characters long, each a lowercase letter, a digit or a
/// dash.
pub proof fn a_label_is_short_and_plain(s: Seq<char>, i: int)
    ensures
        s.len() > 64 ==> !is_label(s),
        0 <= i < s.len() && !(('a' <= s[i] && s[i] <= 'z') || ('0' <= s[i] && s[i] <= '9') || s[i]
            == '-') ==> !is_label(s),
        s.len() <= 64 && (forall|j: int|
            0 <= j < s.len() ==> ('a' <= #[trigger] s[j] && s[j] <= 'z') || ('0' <= s[j] && s[j]
                <= '9') || s[j] == '-') ==> is_label(s),
{
    if is_label(s) && 0 <= i < s.len() {
        assert(is_label_char(s[i]));
    }
}

} // verus!
