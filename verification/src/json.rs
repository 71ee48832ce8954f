//! JSON values as plain data, and the two directions of `serde_json` on them.

use vstd::prelude::*;

use crate::jsontext::close_of;
use crate::jsontext::object_of_key;
use crate::jsontext::spans_from;
use crate::jsontext::splice_of;
use crate::jsontext::value_of_key;
use crate::jsontext::without_element;
use crate::text::replace_char_of;
use crate::text::same;
use crate::text::text_lt;
use crate::walks::levels;
use crate::walks::located;
use crate::walks::nests_within;

verus! {

/// A parsed JSON value. The members of an object stand in the order of their keys, each key
/// once.
#[derive(Debug)]
pub enum Json {
    Null,
    Bool(bool),
    /// A number that fits an unsigned 64-bit integer.
    Uint(u64),
    /// Any other number, as it is printed.
    OtherNumber(String),
    Text(String),
    Array(Vec<Json>),
    Object(Vec<(String, Json)>),
}

/// What a [`Json`] value holds.
#[verifier::ext_equal]
pub enum JsonVal {
    Null,
    Bool(bool),
    Uint(u64),
    OtherNumber(Seq<char>),
    Text(Seq<char>),
    Array(Seq<JsonVal>),
    Object(Seq<(Seq<char>, JsonVal)>),
}

impl Json {
    pub open spec fn view(&self) -> JsonVal
        decreases self,
    {
        match self {
            Json::Null => JsonVal::Null,
            Json::Bool(b) => JsonVal::Bool(*b),
            Json::Uint(n) => JsonVal::Uint(*n),
            Json::OtherNumber(t) => JsonVal::OtherNumber(t@),
            Json::Text(t) => JsonVal::Text(t@),
            Json::Array(v) => JsonVal::Array(
                Seq::new(
                    v@.len(),
                    |i: int|
                        if 0 <= i < v@.len() {
                            v@[i].view()
                        } else {
                            JsonVal::Null
                        },
                ),
            ),
            Json::Object(v) => JsonVal::Object(
                Seq::new(
                    v@.len(),
                    |i: int|
                        if 0 <= i < v@.len() {
                            (v@[i].0@, v@[i].1.view())
                        } else {
                            (Seq::empty(), JsonVal::Null)
                        },
                ),
            ),
        }
    }
}

/// The value of an optional [`Json`].
pub open spec fn opt_json(o: Option<Json>) -> Option<JsonVal> {
    match o {
        Some(j) => Some(j.view()),
        None => None,
    }
}

/// The value of an optional borrowed [`Json`].
pub open spec fn opt_json_ref(o: Option<&Json>) -> Option<JsonVal> {
    match o {
        Some(j) => Some(j.view()),
        None => None,
    }
}

/// The value of the first member of that name.
pub open spec fn lookup(members: Seq<(Seq<char>, JsonVal)>, key: Seq<char>) -> Option<JsonVal>
    decreases members.len(),
{
    if members.len() == 0 {
        None
    } else if members[0].0 == key {
        Some(members[0].1)
    } else {
        lookup(members.drop_first(), key)
    }
}

/// The member `key` of `v`, where `v` is an object that has it.
pub open spec fn member(v: JsonVal, key: Seq<char>) -> Option<JsonVal> {
    match v {
        JsonVal::Object(m) => lookup(m, key),
        _ => None,
    }
}

/// The member `key` of an optional value.
pub open spec fn member_opt(v: Option<JsonVal>, key: Seq<char>) -> Option<JsonVal> {
    match v {
        Some(x) => member(x, key),
        None => None,
    }
}

/// The text of a string value.
pub open spec fn as_text(v: Option<JsonVal>) -> Option<Seq<char>> {
    match v {
        Some(JsonVal::Text(t)) => Some(t),
        _ => None,
    }
}

/// The elements of an array value.
pub open spec fn as_array(v: Option<JsonVal>) -> Option<Seq<JsonVal>> {
    match v {
        Some(JsonVal::Array(a)) => Some(a),
        _ => None,
    }
}

/// The members of an object value.
pub open spec fn as_object(v: Option<JsonVal>) -> Option<Seq<(Seq<char>, JsonVal)>> {
    match v {
        Some(JsonVal::Object(m)) => Some(m),
        _ => None,
    }
}

/// The members of a vector of pairs, as values.
pub open spec fn members_of(v: Seq<(String, Json)>) -> Seq<(Seq<char>, JsonVal)> {
    Seq::new(v.len(), |i: int| (v[i].0@, v[i].1.view()))
}

/// The elements of a vector, as values.
pub open spec fn elements_of(v: Seq<Json>) -> Seq<JsonVal> {
    Seq::new(v.len(), |i: int| v[i].view())
}

pub broadcast proof fn lemma_members_view(v: Vec<(String, Json)>)
    ensures
        #[trigger] Json::Object(v).view() == JsonVal::Object(members_of(v@)),
{
    assert(Json::Object(v).view()->Object_0 =~= members_of(v@));
}

pub broadcast proof fn lemma_elements_view(v: Vec<Json>)
    ensures
        #[trigger] Json::Array(v).view() == JsonVal::Array(elements_of(v@)),
{
    assert(Json::Array(v).view()->Array_0 =~= elements_of(v@));
}

/// The first member of that name among `members`.
pub fn find_member<'a>(members: &'a Vec<(String, Json)>, key: &str) -> (r: Option<&'a Json>)
    ensures
        opt_json_ref(r) == lookup(members_of(members@), key@),
{
    let ghost m = members_of(members@);
    assert(m.skip(0) =~= m);
    for i in 0..members.len()
        invariant
            m == members_of(members@),
            lookup(m, key@) == lookup(m.skip(i as int), key@),
    {
        assert(m.skip(i as int)[0] == m[i as int]);
        assert(m.skip(i as int).drop_first() =~= m.skip(i + 1));
        if same(members[i].0.as_str(), key) {
            return Some(&members[i].1);
        }
    }
    None
}

impl Json {
    /// The member `key`, where this is an object that has it.
    pub fn get<'a>(&'a self, key: &str) -> (r: Option<&'a Json>)
        ensures
            opt_json_ref(r) == member(self.view(), key@),
    {
        broadcast use lemma_members_view;

        match self {
            Json::Object(m) => find_member(m, key),
            _ => None,
        }
    }

    /// The text, where this is a string.
    pub fn as_str<'a>(&'a self) -> (r: Option<&'a str>)
        ensures
            crate::text::opt_ref(r) == as_text(Some(self.view())),
    {
        match self {
            Json::Text(t) => Some(t.as_str()),
            _ => None,
        }
    }

    /// Are the two values equal, number for number and member for member?
    pub fn equals(&self, other: &Json) -> (r: bool)
        ensures
            r == (self.view() == other.view()),
        decreases self,
    {
        broadcast use {lemma_members_view, lemma_elements_view};

        match (self, other) {
            (Json::Null, Json::Null) => true,
            (Json::Bool(a), Json::Bool(b)) => *a == *b,
            (Json::Uint(a), Json::Uint(b)) => *a == *b,
            (Json::OtherNumber(a), Json::OtherNumber(b)) => same(a.as_str(), b.as_str()),
            (Json::Text(a), Json::Text(b)) => same(a.as_str(), b.as_str()),
            (Json::Array(a), Json::Array(b)) => {
                if a.len() != b.len() {
                    assert(elements_of(a@).len() != elements_of(b@).len());
                    return false;
                }
                for i in 0..a.len()
                    invariant
                        a@.len() == b@.len(),
                        *self == Json::Array(*a),
                        *other == Json::Array(*b),
                        forall|j: int| 0 <= j < i ==> #[trigger] elements_of(a@)[j] == elements_of(b@)[j],
                {
                    broadcast use {lemma_members_view, lemma_elements_view};

                    assert(decreases_to!(*self => a@[i as int]));
                    if !a[i].equals(&b[i]) {
                        assert(elements_of(a@)[i as int] != elements_of(b@)[i as int]);
                        return false;
                    }
                }
                assert(elements_of(a@) =~= elements_of(b@));
                true
            },
            (Json::Object(a), Json::Object(b)) => {
                if a.len() != b.len() {
                    assert(members_of(a@).len() != members_of(b@).len());
                    return false;
                }
                for i in 0..a.len()
                    invariant
                        a@.len() == b@.len(),
                        *self == Json::Object(*a),
                        *other == Json::Object(*b),
                        forall|j: int| 0 <= j < i ==> #[trigger] members_of(a@)[j] == members_of(b@)[j],
                {
                    broadcast use {lemma_members_view, lemma_elements_view};

                    assert(decreases_to!(*self => a@[i as int]));
                    if !same(a[i].0.as_str(), b[i].0.as_str()) || !a[i].1.equals(&b[i].1) {
                        assert(members_of(a@)[i as int] != members_of(b@)[i as int]);
                        return false;
                    }
                }
                assert(members_of(a@) =~= members_of(b@));
                true
            },
            _ => false,
        }
    }
}

/// The declaration that lets a `serde_json::Value` pass through signatures; nothing is known of
/// what one holds.
#[verifier::external_type_specification]
#[verifier::external_body]
pub struct ExJsonValue(serde_json::Value);

/// What `serde_json::from_str` reads out of a text: `None` where the text is not one JSON value.
pub uninterp spec fn parsed_json(text: Seq<char>) -> Option<JsonVal>;

/// What `serde_json` prints for a value in its compact form.
pub uninterp spec fn printed_json(v: JsonVal) -> Seq<char>;

/// What `serde_json` prints for a value in its pretty form.
pub uninterp spec fn pretty_json(v: JsonVal) -> Seq<char>;

/// A value whose numbers are unsigned 64-bit integers, whose objects have their keys in
/// increasing order, and whose arrays and objects are nested at most `depth` deep.
pub open spec fn plain(v: JsonVal, depth: nat) -> bool
    decreases depth,
{
    match v {
        JsonVal::OtherNumber(_) => false,
        JsonVal::Array(a) => depth > 0 && forall|i: int|
            0 <= i < a.len() ==> plain(#[trigger] a[i], (depth - 1) as nat),
        JsonVal::Object(m) => depth > 0 && {
            &&& forall|i: int|
                0 <= i < m.len() ==> plain((#[trigger] m[i]).1, (depth - 1) as nat)
            &&& forall|i: int, j: int|
                0 <= i < j < m.len() ==> text_lt((#[trigger] m[i]).0, (#[trigger] m[j]).0)
        },
        _ => true,
    }
}

/// What is nested at most so deep is nested at most deeper.
pub proof fn lemma_plain_deeper(v: JsonVal, depth: nat, deeper: nat)
    requires
        plain(v, depth),
        depth <= deeper,
    ensures
        plain(v, deeper),
    decreases depth,
{
    match v {
        JsonVal::Array(a) => {
            assert forall|i: int| 0 <= i < a.len() implies plain(
                #[trigger] a[i],
                (deeper - 1) as nat,
            ) by {
                lemma_plain_deeper(a[i], (depth - 1) as nat, (deeper - 1) as nat);
            }
        },
        JsonVal::Object(m) => {
            assert forall|i: int| 0 <= i < m.len() implies plain(
                (#[trigger] m[i]).1,
                (deeper - 1) as nat,
            ) by {
                lemma_plain_deeper(m[i].1, (depth - 1) as nat, (deeper - 1) as nat);
            }
        },
        _ => {},
    }
}

/// A character that may stand between the tokens of a JSON text.
pub open spec fn is_json_blank(c: char) -> bool {
    c == ' ' || c == '\n' || c == '\t' || c == '\r'
}

/// The last character that is not blank closes an object.
pub open spec fn closes_object(s: Seq<char>) -> bool {
    exists|i: int|
        0 <= i < s.len() && (#[trigger] s[i]) == '}' && forall|j: int|
            i < j < s.len() ==> is_json_blank(#[trigger] s[j])
}

/// The first character that is not blank opens an object.
pub open spec fn opens_object(s: Seq<char>) -> bool {
    exists|i: int|
        0 <= i < s.len() && (#[trigger] s[i]) == '{' && forall|j: int|
            0 <= j < i ==> is_json_blank(#[trigger] s[j])
}

/// Every character is blank.
pub open spec fn all_blank(s: Seq<char>) -> bool {
    forall|i: int| 0 <= i < s.len() ==> is_json_blank(#[trigger] s[i])
}

/// A key that stands between quotes as it is.
pub open spec fn is_bare_key(key: Seq<char>) -> bool {
    forall|i: int| 0 <= i < key.len() ==> (#[trigger] key[i]) >= ' ' && key[i] != '"' && key[i] != '\\'
}

/// The text of an object with one member, with `a` before its key and `b` behind its value.
pub open spec fn one_member_text(a: Seq<char>, key: Seq<char>, v: Seq<char>, b: Seq<char>) -> Seq<
    char,
> {
    "{"@ + a + "\""@ + key + "\": "@ + v + b + "}"@
}

/// The text with a member put behind the bracket at `open`: `lead` before its key, and `tail`
/// behind its value.
pub open spec fn member_put(
    s: Seq<char>,
    open: int,
    lead: Seq<char>,
    key: Seq<char>,
    v: Seq<char>,
    tail: Seq<char>,
) -> Seq<char> {
    s.take(open + 1) + lead + "\""@ + key + "\": "@ + v + tail + s.skip(open + 1)
}

/// What stands behind a member or an element that is put at the front: nothing where it is alone,
/// else a comma and perhaps blanks.
pub open spec fn separates(tail: Seq<char>, alone: bool) -> bool {
    if alone {
        tail.len() == 0
    } else {
        tail.len() > 0 && tail[0] == ',' && all_blank(tail.skip(1))
    }
}

/// The text with an element put behind the bracket at `open`.
pub open spec fn element_put(s: Seq<char>, open: int, v: Seq<char>, tail: Seq<char>) -> Seq<char> {
    s.take(open + 1) + v + tail + s.skip(open + 1)
}

/// The text with the element `i` of the array that is `a..b` replaced.
pub open spec fn element_set(s: Seq<char>, a: int, b: int, i: int, v: Seq<char>) -> Seq<char> {
    let at = spans_from(s, a + 1, b)->0[i];
    splice_of(s, at.0, at.1, v)
}

/// The text without the element `i` of the array that is `a..b`.
pub open spec fn element_dropped(s: Seq<char>, a: int, b: int, i: int) -> Seq<char> {
    let at = spans_from(s, a + 1, b)->0[i];
    without_element(s, a, b, at.0, at.1)
}

/// The object is the other one but for the member `key`, which is `x`.
pub open spec fn with_member(v: JsonVal, key: Seq<char>, x: JsonVal, old: JsonVal) -> bool {
    &&& v is Object
    &&& member(v, key) == Some(x)
    &&& forall|k: Seq<char>| k != key ==> #[trigger] member(v, k) == member(old, k)
}

/// The object is the other one but for the member `key` of the object `outer` in it, which is `x`.
pub open spec fn with_inner(
    v: JsonVal,
    outer: Seq<char>,
    key: Seq<char>,
    x: JsonVal,
    old: JsonVal,
) -> bool {
    &&& member(v, outer) is Some
    &&& with_member(v, outer, member(v, outer)->0, old)
    &&& with_member(member(v, outer)->0, key, x, member(old, outer)->0)
}

/// The members of the object `outer` in an object.
pub open spec fn inner_of(v: JsonVal, outer: Seq<char>) -> Option<Seq<(Seq<char>, JsonVal)>> {
    as_object(member(v, outer))
}

/// The text of an object with a member put at its front that is a text.
pub open spec fn noted_text(lead: Seq<char>, key: Seq<char>, note: Seq<char>, s: Seq<char>) -> Seq<
    char,
> {
    member_put(s, 0, lead, key, "\""@ + note + "\""@, ","@)
}

/// The text of an object whose one member has `text` for its value, and of an object whose one
/// member is such an object, parses to just that, and the latter with a text put before that
/// member to both.
pub open spec fn wraps(text: Seq<char>, r: Option<JsonVal>) -> bool {
    r is Some && nests_within(text, 125) ==> {
        &&& forall|a: Seq<char>, key: Seq<char>, b: Seq<char>|
            all_blank(a) && is_bare_key(key) && all_blank(b) ==> parsed_json(
                #[trigger] one_member_text(a, key, text, b),
            ) == Some(JsonVal::Object(seq![(key, r->0)]))
        &&& forall|
            a: Seq<char>,
            outer: Seq<char>,
            b: Seq<char>,
            c: Seq<char>,
            key: Seq<char>,
            d: Seq<char>,
        |
            all_blank(a) && is_bare_key(outer) && all_blank(b) && all_blank(c) && is_bare_key(key)
                && all_blank(d) ==> parsed_json(
                #[trigger] one_member_text(a, outer, one_member_text(c, key, text, d), b),
            ) == Some(JsonVal::Object(seq![(outer, JsonVal::Object(seq![(key, r->0)]))]))
        &&& forall|
            lead: Seq<char>,
            first: Seq<char>,
            note: Seq<char>,
            a: Seq<char>,
            outer: Seq<char>,
            b: Seq<char>,
            c: Seq<char>,
            key: Seq<char>,
            d: Seq<char>,
        |
            all_blank(lead) && is_bare_key(first) && is_bare_key(note) && first != outer
                && all_blank(a) && is_bare_key(outer) && all_blank(b) && all_blank(c)
                && is_bare_key(key) && all_blank(d) ==> {
                let now = parsed_json(
                    #[trigger] noted_text(
                        lead,
                        first,
                        note,
                        one_member_text(a, outer, one_member_text(c, key, text, d), b),
                    ),
                );
                now is Some && with_member(
                    now->0,
                    first,
                    JsonVal::Text(note),
                    JsonVal::Object(seq![(outer, JsonVal::Object(seq![(key, r->0)]))]),
                )
            }
    }
}

/// An object with a member put at its front, under a key that it does not have, parses to what it
/// was and that member.
pub open spec fn takes_member(text: Seq<char>, r: Option<JsonVal>) -> bool {
    forall|lead: Seq<char>, key: Seq<char>, v: Seq<char>, tail: Seq<char>|
        r is Some && r->0 is Object && text[0] == '{' && all_blank(lead) && is_bare_key(key)
            && member(r->0, key) is None && separates(tail, r->0->Object_0.len() == 0)
            && parsed_json(v) is Some && nests_within(v, 126) ==> {
            let now = parsed_json(#[trigger] member_put(text, 0, lead, key, v, tail));
            now is Some && with_member(now->0, key, parsed_json(v)->0, r->0)
        }
}

/// With a member put at the front of the object under `outer`, under a key that is not there, a
/// text parses to what it was and that member.
pub open spec fn takes_inner_member(text: Seq<char>, r: Option<JsonVal>) -> bool {
    forall|
        outer: Seq<char>,
        open: int,
        lead: Seq<char>,
        key: Seq<char>,
        v: Seq<char>,
        tail: Seq<char>,
    |
        #![trigger object_of_key(text, outer), member_put(text, open, lead, key, v, tail)]
        r is Some && object_of_key(text, outer) == Some(open) && inner_of(r->0, outer) is Some
            && all_blank(lead) && is_bare_key(key) && lookup(inner_of(r->0, outer)->0, key) is None
            && separates(tail, inner_of(r->0, outer)->0.len() == 0) && parsed_json(v) is Some
            && nests_within(v, 125) ==> {
            let now = parsed_json(member_put(text, open, lead, key, v, tail));
            now is Some && with_inner(now->0, outer, key, parsed_json(v)->0, r->0)
        }
}

/// The value of the member `key` of the object under `outer` is the text `a..b`.
pub open spec fn stands_in(
    text: Seq<char>,
    r: Option<JsonVal>,
    outer: Seq<char>,
    key: Seq<char>,
    a: int,
    b: int,
) -> bool {
    &&& r is Some
    &&& object_of_key(text, outer) is Some
    &&& value_of_key(text, object_of_key(text, outer)->0, key) == Some((a, b))
    &&& inner_of(r->0, outer) is Some
    &&& lookup(inner_of(r->0, outer)->0, key) is Some
}

/// With the text of such a value replaced, a text parses to what it was but for that value.
pub open spec fn takes_value(text: Seq<char>, r: Option<JsonVal>) -> bool {
    forall|outer: Seq<char>, key: Seq<char>, a: int, b: int, v: Seq<char>|
        #[trigger] stands_in(text, r, outer, key, a, b) && parsed_json(v) is Some
            && nests_within(v, 125) ==> {
            let now = parsed_json(#[trigger] splice_of(text, a, b, v));
            now is Some && with_inner(now->0, outer, key, parsed_json(v)->0, r->0)
        }
}

/// The elements of the array that is such a value.
pub open spec fn elements_in(r: Option<JsonVal>, outer: Seq<char>, key: Seq<char>) -> Option<
    Seq<JsonVal>,
> {
    as_array(lookup(inner_of(r->0, outer)->0, key))
}

/// With an element put at the front of such an array, or in place of one of its elements, or with
/// one of its elements dropped, a text parses to what it was but for that array. In front of each
/// of its elements, and in each of them, strings end and brackets match.
pub open spec fn takes_element(text: Seq<char>, r: Option<JsonVal>) -> bool {
    forall|outer: Seq<char>, key: Seq<char>, a: int, b: int|
        #[trigger] stands_in(text, r, outer, key, a, b) && elements_in(r, outer, key) is Some ==> {
            let es = elements_in(r, outer, key)->0;
            &&& forall|v: Seq<char>, tail: Seq<char>|
                separates(tail, es.len() == 0) && parsed_json(v) is Some
                    && nests_within(v, 124) ==> {
                    let now = parsed_json(#[trigger] element_put(text, a, v, tail));
                    now is Some && with_inner(
                        now->0,
                        outer,
                        key,
                        JsonVal::Array(seq![parsed_json(v)->0] + es),
                        r->0,
                    )
                }
            &&& spans_from(text, a + 1, b) is Some && spans_from(text, a + 1, b)->0.len() == es.len()
                ==> {
                &&& forall|i: int, v: Seq<char>|
                    0 <= i < es.len() && parsed_json(v) is Some
                    && nests_within(v, 124)
                        ==> {
                        let now = parsed_json(#[trigger] element_set(text, a, b, i, v));
                        now is Some && with_inner(
                            now->0,
                            outer,
                            key,
                            JsonVal::Array(es.update(i, parsed_json(v)->0)),
                            r->0,
                        )
                    }
                &&& forall|i: int|
                    0 <= i < es.len() ==> {
                        let now = parsed_json(#[trigger] element_dropped(text, a, b, i));
                        now is Some && with_inner(
                            now->0,
                            outer,
                            key,
                            JsonVal::Array(es.remove(i)),
                            r->0,
                        )
                    }
                &&& forall|i: int|
                    0 <= i < es.len() ==> {
                        let at = #[trigger] spans_from(text, a + 1, b)->0[i];
                        levels(text, a + 1, 0, at.0) && levels(text, at.0, 0, at.1)
                    }
            }
        }
}

/// One `serde_json::Value` variant for each variant of [`Json`]: objects in the key order of
/// `serde_json::Map`, numbers that `Number::as_u64` gives as they are and the others as
/// `Number` prints them.
#[verifier::external_body]
fn json_of(v: &serde_json::Value) -> (r: Json)
{
    match v {
        serde_json::Value::Null => Json::Null,
        serde_json::Value::Bool(b) => Json::Bool(*b),
        serde_json::Value::Number(n) => match n.as_u64() {
            Some(u) => Json::Uint(u),
            None => Json::OtherNumber(n.to_string()),
        },
        serde_json::Value::String(s) => Json::Text(s.clone()),
        serde_json::Value::Array(a) => Json::Array(a.iter().map(json_of).collect()),
        serde_json::Value::Object(o) => Json::Object(
            o.iter().map(|(k, x)| (k.clone(), json_of(x))).collect(),
        ),
    }
}

/// One variant of [`Json`] for each variant of `serde_json::Value`.
#[verifier::external_body]
fn value_of(v: &Json) -> (r: serde_json::Value)
{
    match v {
        Json::Null => serde_json::Value::Null,
        Json::Bool(b) => serde_json::Value::Bool(*b),
        Json::Uint(n) => serde_json::Value::from(*n),
        Json::OtherNumber(t) => t.parse().map(serde_json::Value::Number).unwrap_or_default(),
        Json::Text(s) => serde_json::Value::String(s.clone()),
        Json::Array(a) => serde_json::Value::Array(a.iter().map(value_of).collect()),
        Json::Object(o) => serde_json::Value::Object(
            o.iter().map(|m| (m.0.clone(), value_of(&m.1))).collect(),
        ),
    }
}

/// Every member of an object is an object or an array, under a bare key.
pub open spec fn is_frame(v: JsonVal) -> bool {
    v matches JsonVal::Object(m) && forall|i: int|
        0 <= i < m.len() ==> is_bare_key((#[trigger] m[i]).0) && (m[i].1 is Object
            || m[i].1 is Array)
}

/// A walk over the text finds every array in the object under `outer`, with all its elements,
/// where neither that object nor the whole has a member that is no bracketed value.
pub open spec fn lays_out(text: Seq<char>, v: JsonVal) -> bool {
    forall|outer: Seq<char>, key: Seq<char>, n: nat|
        is_frame(v) && inner_of(v, outer) is Some && is_frame(JsonVal::Object(inner_of(v, outer)->0))
            && elements_in(Some(v), outer, key) is Some && elements_in(Some(v), outer, key)->0.len()
            == n ==> #[trigger] located(text, outer, key, n)
}

/// `serde_json::from_str` into a `serde_json::Value`. Claimed: what it gives depends on the text
/// alone, and is the same with a newline behind the text. The value is an object just where the
/// first character that is not blank opens one, and then the last one closes it. In a text that it
/// reads, strings end and brackets match. Claimed too is what it gives of a text that has this one
/// in it or is an edit of it, where the brackets of the text nest no deeper than it goes: see
/// [`wraps`], [`takes_member`], [`takes_inner_member`], [`takes_value`] and [`takes_element`].
#[verifier::external_body]
pub(crate) fn parse_json(text: &str) -> (r: Option<Json>)
    ensures
        opt_json(r) == parsed_json(text@),
        parsed_json(text@.push('\n')) == opt_json(r),
        r matches Some(v) ==> (v.view() is Object <==> opens_object(text@)),
        r matches Some(v) ==> v.view() is Object ==> closes_object(text@),
        r is Some ==> levels(text@, 0, 0, text@.len() as int),
        wraps(text@, opt_json(r)),
        takes_member(text@, opt_json(r)),
        takes_inner_member(text@, opt_json(r)),
        takes_value(text@, opt_json(r)),
        takes_element(text@, opt_json(r)),
{
    match serde_json::from_str::<serde_json::Value>(text) {
        Ok(v) => Some(json_of(&v)),
        Err(_) => None,
    }
}

/// `serde_json::Value::to_string`. Claimed: what it prints depends on the value alone, and
/// `serde_json::from_str` reads a plain value back as it was, where it is nested no deeper than
/// that function goes, between square brackets as the one element of an array, and as a member of
/// an object: see [`wraps`]. The brackets of the text nest as the value does, and the one that
/// begins the text of an object closes at its end.
#[verifier::external_body]
pub(crate) fn print_json(v: &Json) -> (r: String)
    ensures
        r@ == printed_json(v.view()),
        plain(v.view(), 127) ==> parsed_json(r@) == Some(v.view()),
        plain(v.view(), 126) ==> parsed_json("["@ + r@ + "]"@) == Some(JsonVal::Array(seq![v.view()])),
        plain(v.view(), 127) ==> wraps(r@, Some(v.view())),
        forall|n: nat| plain(v.view(), n) ==> #[trigger] nests_within(r@, n),
        v.view() is Object ==> r@.len() > 0 && r@[0] == '{' && close_of(r@, 0, 0) == Some(
            r@.len() as int,
        ),
{
    value_of(v).to_string()
}

/// `serde_json::to_string_pretty`, which has no error for a `serde_json::Value`. Claimed: what it
/// prints depends on the value alone; `serde_json::from_str` reads a plain value back as it was,
/// where it is nested no deeper than that function goes, also with a newline behind the text or
/// with two blanks behind each newline in it, where its brackets nest as the value does; the text
/// of an object begins and ends with its brackets; and in the text of objects without members that
/// are texts or numbers each array is found: see [`lays_out`].
#[verifier::external_body]
pub(crate) fn print_json_pretty(v: &Json) -> (r: String)
    ensures
        r@ == pretty_json(v.view()),
        plain(v.view(), 127) ==> {
            &&& parsed_json(r@) == Some(v.view())
            &&& parsed_json(r@.push('\n')) == Some(v.view())
            &&& parsed_json(replace_char_of(r@, '\n', "\n  "@)) == Some(v.view())
        },
        forall|n: nat|
            plain(v.view(), n) ==> #[trigger] nests_within(
                replace_char_of(r@, '\n', "\n  "@),
                n,
            ),
        v.view() is Object ==> r@.len() > 1 && r@[0] == '{' && r@.last() == '}',
        plain(v.view(), 127) ==> lays_out(r@, v.view()),
{
    serde_json::to_string_pretty(&value_of(v)).unwrap_or_default()
}

/// The value of a JSON text, `None` where it is none.
pub fn read_json(text: &str) -> (r: Option<Json>)
    ensures
        opt_json(r) == parsed_json(text@),
{
    parse_json(text)
}

/// The JSON string literal of a text, quotes included.
pub fn json_string(s: &str) -> (r: String)
    ensures
        r@ == printed_json(JsonVal::Text(s@)),
{
    print_json(&Json::Text(s.to_owned()))
}

/// A member is found by its name: the first of that name counts, and what has no such member, or no
/// members at all, has none.
pub proof fn a_member_is_found_by_its_name(
    members: Seq<(Seq<char>, JsonVal)>,
    i: int,
    key: Seq<char>,
)
    requires
        0 <= i <= members.len(),
        forall|j: int| 0 <= j < i ==> (#[trigger] members[j]).0 != key,
        i < members.len() ==> members[i].0 == key,
    ensures
        i < members.len() ==> member(JsonVal::Object(members), key) == Some(members[i].1),
        i == members.len() ==> member(JsonVal::Object(members), key) is None,
        forall|v: JsonVal| v !is Object ==> (#[trigger] member(v, key)) is None,
    decreases i,
{
    if i > 0 {
        let rest = members.drop_first();
        assert forall|j: int| 0 <= j < i - 1 implies (#[trigger] rest[j]).0 != key by {
            assert(rest[j] == members[j + 1]);
        }
        assert(members[0].0 != key);
        a_member_is_found_by_its_name(rest, i - 1, key);
    }
}

} // verus!
