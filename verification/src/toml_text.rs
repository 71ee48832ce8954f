//! TOML documents as plain data, and the format-preserving edits of `toml_edit`.

use vstd::prelude::*;

use crate::text::same;
use crate::text::trim_of;

verus! {

/// One item of a TOML document.
#[derive(Debug)]
pub enum Toml {
    Text(String),
    Integer(i64),
    /// A floating-point number, as it is printed.
    Float(String),
    Boolean(bool),
    /// A date, a time or both, as it is printed.
    Datetime(String),
    Array(Vec<Toml>),
    /// A table with a header or dotted keys.
    Table(Vec<(String, Toml)>),
    /// An inline table.
    Inline(Vec<(String, Toml)>),
    /// An array of tables with headers.
    Tables(Vec<Toml>),
}

/// What a [`Toml`] item holds. The items of a table have no order.
#[verifier::ext_equal]
pub enum TomlVal {
    Text(Seq<char>),
    Integer(i64),
    Float(Seq<char>),
    Boolean(bool),
    Datetime(Seq<char>),
    Array(Seq<TomlVal>),
    Table(Map<Seq<char>, TomlVal>),
    Inline(Map<Seq<char>, TomlVal>),
    Tables(Seq<TomlVal>),
}

/// The first item of that key.
pub open spec fn item_named(items: Seq<(Seq<char>, TomlVal)>, key: Seq<char>) -> Option<TomlVal>
    decreases items.len(),
{
    if items.len() == 0 {
        None
    } else if items[0].0 == key {
        Some(items[0].1)
    } else {
        item_named(items.drop_first(), key)
    }
}

/// The items by their keys.
pub open spec fn by_key(items: Seq<(Seq<char>, TomlVal)>) -> Map<Seq<char>, TomlVal> {
    Map::new(|k: Seq<char>| item_named(items, k) is Some, |k: Seq<char>| item_named(items, k)->0)
}

/// The keys of a vector of pairs, each with what its item holds.
pub open spec fn pairs_of(v: Vec<(String, Toml)>) -> Seq<(Seq<char>, TomlVal)>
    decreases v,
{
    Seq::new(
        v@.len(),
        |i: int|
            if 0 <= i < v@.len() {
                (v@[i].0@, v@[i].1.view())
            } else {
                (Seq::empty(), TomlVal::Boolean(false))
            },
    )
}

impl Toml {
    pub open spec fn view(&self) -> TomlVal
        decreases self,
    {
        match self {
            Toml::Text(t) => TomlVal::Text(t@),
            Toml::Integer(n) => TomlVal::Integer(*n),
            Toml::Float(t) => TomlVal::Float(t@),
            Toml::Boolean(b) => TomlVal::Boolean(*b),
            Toml::Datetime(t) => TomlVal::Datetime(t@),
            Toml::Array(v) => TomlVal::Array(
                Seq::new(
                    v@.len(),
                    |i: int|
                        if 0 <= i < v@.len() {
                            v@[i].view()
                        } else {
                            TomlVal::Boolean(false)
                        },
                ),
            ),
            Toml::Table(v) => TomlVal::Table(by_key(pairs_of(*v))),
            Toml::Inline(v) => TomlVal::Inline(by_key(pairs_of(*v))),
            Toml::Tables(v) => TomlVal::Tables(
                Seq::new(
                    v@.len(),
                    |i: int|
                        if 0 <= i < v@.len() {
                            v@[i].view()
                        } else {
                            TomlVal::Boolean(false)
                        },
                ),
            ),
        }
    }
}

pub open spec fn opt_toml(o: Option<Toml>) -> Option<TomlVal> {
    match o {
        Some(t) => Some(t.view()),
        None => None,
    }
}

pub open spec fn opt_toml_ref(o: Option<&Toml>) -> Option<TomlVal> {
    match o {
        Some(t) => Some(t.view()),
        None => None,
    }
}

/// An item is named just where one has the key.
proof fn lemma_item_named(items: Seq<(Seq<char>, TomlVal)>, key: Seq<char>)
    ensures
        item_named(items, key) is Some <==> exists|i: int|
            0 <= i < items.len() && (#[trigger] items[i]).0 == key,
    decreases items.len(),
{
    if items.len() > 0 {
        let rest = items.drop_first();
        lemma_item_named(rest, key);
        if items[0].0 != key {
            if item_named(rest, key) is Some {
                let i = choose|i: int| 0 <= i < rest.len() && (#[trigger] rest[i]).0 == key;
                assert(items[i + 1].0 == key);
            }
            if exists|i: int| 0 <= i < items.len() && (#[trigger] items[i]).0 == key {
                let i = choose|i: int| 0 <= i < items.len() && (#[trigger] items[i]).0 == key;
                assert(rest[i - 1].0 == key);
            }
        }
    }
}

/// The items of a table of either kind.
pub open spec fn table_like(v: TomlVal) -> Option<Map<Seq<char>, TomlVal>> {
    match v {
        TomlVal::Table(m) => Some(m),
        TomlVal::Inline(m) => Some(m),
        _ => None,
    }
}

/// The item `key` of a table of either kind.
pub open spec fn item(v: TomlVal, key: Seq<char>) -> Option<TomlVal> {
    match table_like(v) {
        Some(m) => if m.dom().contains(key) {
            Some(m[key])
        } else {
            None
        },
        None => None,
    }
}

pub open spec fn item_opt(v: Option<TomlVal>, key: Seq<char>) -> Option<TomlVal> {
    match v {
        Some(x) => item(x, key),
        None => None,
    }
}

/// A table of one text.
pub open spec fn one_text(key: Seq<char>, value: Seq<char>) -> Map<Seq<char>, TomlVal> {
    Map::empty().insert(key, TomlVal::Text(value))
}

impl Toml {
    /// Is this a table of either kind?
    pub fn is_table_like(&self) -> (r: bool)
        ensures
            r == (table_like(self.view()) is Some),
    {
        match self {
            Toml::Table(_) => true,
            Toml::Inline(_) => true,
            _ => false,
        }
    }

    /// Is this a table of either kind that holds that text under that key, and nothing else?
    pub fn holds_only(&self, key: &str, value: &str) -> (r: bool)
        ensures
            r == (table_like(self.view()) == Some(one_text(key@, value@))),
    {
        let items: &Vec<(String, Toml)> = match self {
            Toml::Table(m) => m,
            Toml::Inline(m) => m,
            _ => {
                return false;
            },
        };
        let ghost m = pairs_of(*items);
        let ghost want = one_text(key@, value@);
        if items.len() == 0 {
            assert(!by_key(m).dom().contains(key@));
            assert(want.dom().contains(key@));
            return false;
        }
        for i in 0..items.len()
            invariant
                m == pairs_of(*items),
                want == one_text(key@, value@),
                table_like(self.view()) == Some(by_key(m)),
                forall|j: int| 0 <= j < i ==> (#[trigger] m[j]).0 == key@,
        {
            assert(m[i as int].0 == items@[i as int].0@);
            if !same(items[i].0.as_str(), key) {
                proof {
                    lemma_item_named(m, m[i as int].0);
                    assert(by_key(m).dom().contains(m[i as int].0));
                    assert(!want.dom().contains(m[i as int].0));
                }
                return false;
            }
        }
        assert(m[0] == (items@[0].0@, items@[0].1.view()));
        assert(by_key(m)[key@] == m[0].1 && by_key(m).dom().contains(key@));
        match &items[0].1 {
            Toml::Text(t) => {
                proof {
                    assert forall|k: Seq<char>| k != key@ implies !by_key(m).dom().contains(k) by {
                        lemma_item_named(m, k);
                    }
                    if t@ == value@ {
                        assert(by_key(m) =~= want);
                    } else {
                        assert(by_key(m)[key@] != want[key@]);
                    }
                }
                same(t.as_str(), value)
            },
            _ => {
                assert(by_key(m)[key@] != want[key@]);
                false
            },
        }
    }

    /// The item `key`, where this is a table of either kind that has it.
    pub fn get<'a>(&'a self, key: &str) -> (r: Option<&'a Toml>)
        ensures
            opt_toml_ref(r) == item(self.view(), key@),
    {
        let items: &Vec<(String, Toml)> = match self {
            Toml::Table(m) => m,
            Toml::Inline(m) => m,
            _ => {
                return None;
            },
        };
        let ghost m = pairs_of(*items);
        assert(m.skip(0) =~= m);
        assert(item(self.view(), key@) == item_named(m, key@));
        for i in 0..items.len()
            invariant
                m == pairs_of(*items),
                item(self.view(), key@) == item_named(m.skip(i as int), key@),
        {
            assert(m.skip(i as int)[0] == m[i as int]);
            assert(m.skip(i as int).drop_first() =~= m.skip(i + 1));
            if same(items[i].0.as_str(), key) {
                return Some(&items[i].1);
            }
        }
        None
    }
}

/// The declaration that lets a `toml_edit::Item` pass through signatures; nothing is known of
/// what one holds.
#[verifier::external_type_specification]
#[verifier::external_body]
pub struct ExTomlItem(toml_edit::Item);

/// The same for a `toml_edit::Value`.
#[verifier::external_type_specification]
#[verifier::external_body]
pub struct ExTomlValue(toml_edit::Value);

/// The same for a `toml_edit::DocumentMut`, whose contents are named by [`doc_items`].
#[verifier::external_type_specification]
#[verifier::external_body]
pub struct ExTomlDocument(toml_edit::DocumentMut);

/// What `toml_edit` reads out of a text: the table of the whole document, `None` where the text
/// is not TOML.
pub uninterp spec fn parsed_toml(text: Seq<char>) -> Option<TomlVal>;

/// The items of a document. A table inside an inline table is an inline one.
pub uninterp spec fn doc_items(d: toml_edit::DocumentMut) -> Map<Seq<char>, TomlVal>;

/// How a document was made: from the text that it was parsed from, by what was done to it since.
pub uninterp spec fn doc_steps(d: toml_edit::DocumentMut) -> Seq<TomlStep>;

/// What `toml_edit` prints for a document that was made so.
pub uninterp spec fn toml_printed(steps: Seq<TomlStep>) -> Seq<char>;

/// One thing that is done to a document.
pub enum TomlStep {
    Parsed(Seq<char>),
    /// The table `outer.inner` is cleared.
    Cleared(Seq<char>, Seq<char>),
    /// The key of `outer.inner` loses what was written around it.
    Bared(Seq<char>, Seq<char>),
    /// `outer` is assigned a new table.
    Started(Seq<char>),
    /// The table `outer` is made implicit.
    Implied(Seq<char>),
    /// `outer.inner` is assigned a new table.
    Put(Seq<char>, Seq<char>),
    /// `outer.inner.key` is assigned a text.
    Given(Seq<char>, Seq<char>, Seq<char>, Seq<char>),
}

/// A table of the same kind with other items.
pub open spec fn refilled(v: TomlVal, m: Map<Seq<char>, TomlVal>) -> TomlVal {
    match v {
        TomlVal::Table(_) => TomlVal::Table(m),
        _ => TomlVal::Inline(m),
    }
}

/// The item `outer.inner`.
pub open spec fn inner_item(
    m: Map<Seq<char>, TomlVal>,
    outer: Seq<char>,
    inner: Seq<char>,
) -> Option<TomlVal> {
    item_opt(item(TomlVal::Table(m), outer), inner)
}

/// The items with `x` for `outer.inner`, everything else as it is.
pub open spec fn with_inner_item(
    m: Map<Seq<char>, TomlVal>,
    outer: Seq<char>,
    inner: Seq<char>,
    x: TomlVal,
) -> Map<Seq<char>, TomlVal> {
    m.insert(outer, refilled(m[outer], table_like(m[outer])->0.insert(inner, x)))
}

/// `outer` is a table of either kind.
pub open spec fn has_outer(m: Map<Seq<char>, TomlVal>, outer: Seq<char>) -> bool {
    m.dom().contains(outer) && table_like(m[outer]) is Some
}

/// A table that was cleared or made is not empty.
pub open spec fn is_filled(steps: Seq<TomlStep>, m: Map<Seq<char>, TomlVal>) -> bool {
    forall|i: int|
        0 <= i < steps.len() ==> match #[trigger] steps[i] {
            TomlStep::Cleared(outer, inner) => has_items(inner_item(m, outer, inner)),
            TomlStep::Put(outer, inner) => has_items(inner_item(m, outer, inner)),
            TomlStep::Started(outer) => has_items(item(TomlVal::Table(m), outer)),
            _ => true,
        }
}

/// A table of either kind that is not empty.
pub open spec fn has_items(v: Option<TomlVal>) -> bool {
    match v {
        Some(x) => match table_like(x) {
            Some(m) => exists|k: Seq<char>| #[trigger] m.dom().contains(k),
            None => false,
        },
        None => false,
    }
}

/// One variant of [`Toml`] for each variant of `toml_edit::Value`.
#[verifier::external_body]
fn toml_value_of(v: &toml_edit::Value) -> (r: Toml)
{
    match v {
        toml_edit::Value::String(s) => Toml::Text(s.value().clone()),
        toml_edit::Value::Integer(n) => Toml::Integer(*n.value()),
        toml_edit::Value::Float(f) => Toml::Float(f.value().to_string()),
        toml_edit::Value::Boolean(b) => Toml::Boolean(*b.value()),
        toml_edit::Value::Datetime(d) => Toml::Datetime(d.value().to_string()),
        toml_edit::Value::Array(a) => Toml::Array(a.iter().map(toml_value_of).collect()),
        toml_edit::Value::InlineTable(t) => Toml::Inline(
            t.iter().map(|(k, v)| (k.to_string(), toml_value_of(v))).collect(),
        ),
    }
}

/// One variant of [`Toml`] for each variant of `toml_edit::Item` that a parsed document holds.
#[verifier::external_body]
fn toml_of(i: &toml_edit::Item) -> (r: Toml)
{
    match i {
        toml_edit::Item::None => Toml::Table(Vec::new()),
        toml_edit::Item::Value(v) => toml_value_of(v),
        toml_edit::Item::Table(t) => Toml::Table(
            t.iter().map(|(k, v)| (k.to_string(), toml_of(v))).collect(),
        ),
        toml_edit::Item::ArrayOfTables(a) => Toml::Tables(
            a.iter().map(|t| toml_of(&toml_edit::Item::Table(t.clone()))).collect(),
        ),
    }
}

/// The parse of a `toml_edit::DocumentMut`. Claimed: whether there is one, and what it holds,
/// depends on the text alone.
#[verifier::external_body]
pub(crate) fn parse_document(text: &str) -> (r: Option<toml_edit::DocumentMut>)
    ensures
        match r {
            Some(d) => parsed_toml(text@) == Some(TomlVal::Table(doc_items(d))),
            None => parsed_toml(text@) is None,
        },
        r matches Some(d) ==> doc_steps(d) == seq![TomlStep::Parsed(text@)],
{
    text.parse::<toml_edit::DocumentMut>().ok()
}

/// `DocumentMut::as_item`, on a document that was parsed and not changed. Claimed: it gives the
/// items of the document.
#[verifier::external_body]
pub(crate) fn document_items(d: &toml_edit::DocumentMut) -> (r: Toml)
    requires
        doc_steps(*d).len() == 1,
    ensures
        r.view() == TomlVal::Table(doc_items(*d)),
{
    toml_of(d.as_item())
}

/// `Table::clear` on the table `outer.inner`. Claimed: the table is empty after it, and everything
/// else is as it was.
#[verifier::external_body]
pub(crate) fn clear_table(d: &mut toml_edit::DocumentMut, outer: &str, inner: &str)
    requires
        inner_item(doc_items(*old(d)), outer@, inner@) is Some,
        inner_item(doc_items(*old(d)), outer@, inner@)->0 is Table,
    ensures
        doc_items(*final(d)) == with_inner_item(
            doc_items(*old(d)),
            outer@,
            inner@,
            TomlVal::Table(Map::empty()),
        ),
        doc_steps(*final(d)) == doc_steps(*old(d)).push(TomlStep::Cleared(outer@, inner@)),
{
    if let toml_edit::Item::Table(t) = &mut d[outer][inner] {
        t.clear();
    }
}

/// `KeyMut::fmt` on the key of `outer.inner`, which drops the blanks, the line breaks and the
/// comments around it. Claimed: the items are as they were.
#[verifier::external_body]
pub(crate) fn bare_key(d: &mut toml_edit::DocumentMut, outer: &str, inner: &str)
    requires
        inner_item(doc_items(*old(d)), outer@, inner@) is Some,
    ensures
        doc_items(*final(d)) == doc_items(*old(d)),
        doc_steps(*final(d)) == doc_steps(*old(d)).push(TomlStep::Bared(outer@, inner@)),
{
    if let Some(t) = d[outer].as_table_like_mut() {
        if let Some(mut k) = t.key_mut(inner) {
            k.fmt();
        }
    }
}

/// `IndexMut` assignment of a new table to `outer`, which is not there. Claimed: it is there after
/// it and empty, and everything else is as it was.
#[verifier::external_body]
pub(crate) fn start_table(d: &mut toml_edit::DocumentMut, outer: &str)
    requires
        !doc_items(*old(d)).dom().contains(outer@),
    ensures
        doc_items(*final(d)) == doc_items(*old(d)).insert(outer@, TomlVal::Table(Map::empty())),
        doc_steps(*final(d)) == doc_steps(*old(d)).push(TomlStep::Started(outer@)),
{
    d[outer] = toml_edit::table();
}

/// `Table::set_implicit` on the table `outer`, so that it is printed without a header of its own
/// where it holds nothing but tables. Claimed: the items are as they were.
#[verifier::external_body]
pub(crate) fn imply_table(d: &mut toml_edit::DocumentMut, outer: &str)
    requires
        doc_steps(*old(d)).last() == TomlStep::Started(outer@),
        doc_steps(*old(d)).len() > 0,
    ensures
        doc_items(*final(d)) == doc_items(*old(d)),
        doc_steps(*final(d)) == doc_steps(*old(d)).push(TomlStep::Implied(outer@)),
{
    if let toml_edit::Item::Table(t) = &mut d[outer] {
        t.set_implicit(true);
    }
}

/// `IndexMut` assignment of a new table to `outer.inner`. Claimed: it is an empty table after it,
/// an inline one in an inline one, and everything else is as it was. Indexing into a value that is
/// no table would panic. What was written around a key that is there would be printed in the
/// header of the new table, so that key has been bared.
#[verifier::external_body]
pub(crate) fn put_table(d: &mut toml_edit::DocumentMut, outer: &str, inner: &str)
    requires
        has_outer(doc_items(*old(d)), outer@),
        inner_item(doc_items(*old(d)), outer@, inner@) is None || (doc_steps(*old(d)).len() > 0
            && doc_steps(*old(d)).last() == TomlStep::Bared(outer@, inner@)),
    ensures
        doc_items(*final(d)) == with_inner_item(
            doc_items(*old(d)),
            outer@,
            inner@,
            refilled(doc_items(*old(d))[outer@], Map::empty()),
        ),
        doc_steps(*final(d)) == doc_steps(*old(d)).push(TomlStep::Put(outer@, inner@)),
{
    d[outer][inner] = toml_edit::table();
}

/// `IndexMut` assignment of a text to `outer.inner.key`, in a table that was just cleared or made.
/// Claimed: the text is there after it, and everything else is as it was.
#[verifier::external_body]
pub(crate) fn set_text(
    d: &mut toml_edit::DocumentMut,
    outer: &str,
    inner: &str,
    key: &str,
    value: &str,
)
    requires
        doc_steps(*old(d)).len() > 0,
        doc_steps(*old(d)).last() == TomlStep::Cleared(outer@, inner@) || doc_steps(
            *old(d),
        ).last() == TomlStep::Put(outer@, inner@),
        has_outer(doc_items(*old(d)), outer@),
        inner_item(doc_items(*old(d)), outer@, inner@) is Some,
        table_like(inner_item(doc_items(*old(d)), outer@, inner@)->0) is Some,
    ensures
        ({
            let t = inner_item(doc_items(*old(d)), outer@, inner@)->0;
            doc_items(*final(d)) == with_inner_item(
                doc_items(*old(d)),
                outer@,
                inner@,
                refilled(t, table_like(t)->0.insert(key@, TomlVal::Text(value@))),
            )
        }),
        doc_steps(*final(d)) == doc_steps(*old(d)).push(
            TomlStep::Given(outer@, inner@, key@, value@),
        ),
{
    d[outer][inner][key] = toml_edit::value(value);
}

/// The `Display` of a `toml_edit::DocumentMut`. Claimed: what it prints depends on how the document
/// was made; and where no table that was cleared or made is empty, which might not be printed, the
/// text reads back with the items of the document, also without the blanks around it.
#[verifier::external_body]
pub(crate) fn print_document(d: &toml_edit::DocumentMut) -> (r: String)
    ensures
        r@ == toml_printed(doc_steps(*d)),
        is_filled(doc_steps(*d), doc_items(*d)) ==> {
            &&& parsed_toml(r@) == Some(TomlVal::Table(doc_items(*d)))
            &&& parsed_toml(trim_of(r@)) == Some(TomlVal::Table(doc_items(*d)))
        },
{
    d.to_string()
}

/// What a TOML text holds, as plain data.
pub fn parse_toml(text: &str) -> (r: Option<Toml>)
    ensures
        opt_toml(r) == parsed_toml(text@),
{
    match parse_document(text) {
        Some(d) => Some(document_items(&d)),
        None => None,
    }
}

} // verus!
