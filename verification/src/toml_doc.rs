//! TOML documents as the library reads them.

use vstd::prelude::*;
use crate::text;

verus! {

/// A TOML item. Tables that are written inline are told apart from those with a header; numbers,
/// booleans, dates and arrays of tables are not looked into.
pub enum Toml {
    Text(String),
    Array(Vec<Toml>),
    Table(Vec<(String, Toml)>),
    Inline(Vec<(String, Toml)>),
    Other,
}

/// What a TOML item is.
pub enum TomlView {
    Text(Seq<char>),
    Array(Seq<TomlView>),
    Table(Seq<EntryView>),
    Inline(Seq<EntryView>),
    Other,
}

/// What an entry of a table is.
pub struct EntryView {
    pub key: Seq<char>,
    pub value: TomlView,
}

impl View for Toml {
    type V = TomlView;

    open spec fn view(&self) -> TomlView
        decreases self,
    {
        match self {
            Toml::Text(s) => TomlView::Text(s@),
            Toml::Array(items) => TomlView::Array(
                Seq::new(
                    items@.len(),
                    |i: int|
                        if 0 <= i < items@.len() {
                            items@[i].view()
                        } else {
                            TomlView::Other
                        },
                ),
            ),
            Toml::Table(entries) => TomlView::Table(
                Seq::new(
                    entries@.len(),
                    |i: int|
                        if 0 <= i < entries@.len() {
                            EntryView { key: entries@[i].0@, value: entries@[i].1.view() }
                        } else {
                            EntryView { key: Seq::empty(), value: TomlView::Other }
                        },
                ),
            ),
            Toml::Inline(entries) => TomlView::Inline(
                Seq::new(
                    entries@.len(),
                    |i: int|
                        if 0 <= i < entries@.len() {
                            EntryView { key: entries@[i].0@, value: entries@[i].1.view() }
                        } else {
                            EntryView { key: Seq::empty(), value: TomlView::Other }
                        },
                ),
            ),
            Toml::Other => TomlView::Other,
        }
    }
}

/// The value of the first entry at or after `i` that is named `key`.
pub open spec fn entry_from(entries: Seq<EntryView>, key: Seq<char>, i: int) -> Option<TomlView>
    decreases entries.len() - i,
{
    if i >= entries.len() {
        None
    } else if entries[i].key == key {
        Some(entries[i].value)
    } else {
        entry_from(entries, key, i + 1)
    }
}

/// The entries of a table of either kind.
pub open spec fn entries_of(item: TomlView) -> Option<Seq<EntryView>> {
    match item {
        TomlView::Table(entries) => Some(entries),
        TomlView::Inline(entries) => Some(entries),
        _ => None,
    }
}

/// The value of the entry `key`, when `item` is a table of either kind that has it.
pub open spec fn entry(item: TomlView, key: Seq<char>) -> Option<TomlView> {
    match entries_of(item) {
        Some(entries) => entry_from(entries, key, 0),
        None => None,
    }
}

/// The text of a string item.
pub open spec fn text_of(item: Option<TomlView>) -> Option<Seq<char>> {
    match item {
        Some(TomlView::Text(s)) => Some(s),
        _ => None,
    }
}

/// The texts of the string items among the first `n`.
pub open spec fn texts_among(items: Seq<TomlView>, n: int) -> Seq<Seq<char>>
    decreases n,
{
    if n <= 0 {
        Seq::empty()
    } else {
        match items[n - 1] {
            TomlView::Text(s) => texts_among(items, n - 1).push(s),
            _ => texts_among(items, n - 1),
        }
    }
}

/// The string items of an array; nothing when there is no array.
pub open spec fn strings_of(item: Option<TomlView>) -> Seq<Seq<char>> {
    match item {
        Some(TomlView::Array(items)) => texts_among(items, items.len() as int),
        _ => Seq::empty(),
    }
}

/// The view of an optional item.
pub open spec fn toml_opt(item: Option<&Toml>) -> Option<TomlView> {
    match item {
        Some(item) => Some(item@),
        None => None,
    }
}

/// What the entries of a table are.
pub open spec fn entry_views(entries: Seq<(String, Toml)>) -> Seq<EntryView> {
    Seq::new(
        entries.len(),
        |i: int| EntryView { key: entries[i].0@, value: entries[i].1@ },
    )
}

/// The entries of a table of either kind.
pub open spec fn raw_entries(item: Toml) -> Option<Vec<(String, Toml)>> {
    match item {
        Toml::Table(entries) => Some(entries),
        Toml::Inline(entries) => Some(entries),
        _ => None,
    }
}

/// What a table holds, entry by entry.
pub proof fn lemma_table(item: Toml)
    ensures
        entries_of(item@) == match raw_entries(item) {
            Some(entries) => Some(entry_views(entries@)),
            None => None::<Seq<EntryView>>,
        },
        item is Table <==> item@ is Table,
        item is Inline <==> item@ is Inline,
        item is Text <==> item@ is Text,
        item is Array <==> item@ is Array,
{
    match item {
        Toml::Table(entries) => {
            assert(item@->Table_0 =~= entry_views(entries@));
        },
        Toml::Inline(entries) => {
            assert(item@->Inline_0 =~= entry_views(entries@));
        },
        _ => {},
    }
}

impl Toml {
    /// The entries of a table of either kind.
    pub fn as_table_like(&self) -> (r: Option<&Vec<(String, Toml)>>)
        ensures
            match r {
                Some(entries) => entries_of(self@) == Some(entry_views(entries@)),
                None => entries_of(self@) is None,
            },
    {
        proof {
            lemma_table(*self);
        }
        match self {
            Toml::Table(entries) => Some(entries),
            Toml::Inline(entries) => Some(entries),
            _ => None,
        }
    }

    /// The value of the entry `key`, when this is a table of either kind that has it.
    pub fn get(&self, key: &str) -> (r: Option<&Toml>)
        ensures
            toml_opt(r) == entry(self@, key@),
    {
        match self.as_table_like() {
            Some(entries) => {
                let ghost all = entry_views(entries@);
                let mut i: usize = 0;
                while i < entries.len()
                    invariant
                        i <= entries@.len(),
                        all == entry_views(entries@),
                        entries_of(self@) == Some(all),
                        entry_from(all, key@, 0) == entry_from(all, key@, i as int),
                    decreases entries@.len() - i,
                {
                    if text::same_text(entries[i].0.as_str(), key) {
                        return Some(&entries[i].1);
                    }
                    i = i + 1;
                }
                None
            },
            None => None,
        }
    }

    /// The text of a string item.
    pub fn as_str(&self) -> (r: Option<&str>)
        ensures
            text::str_opt(r) == text_of(Some(self@)),
    {
        match self {
            Toml::Text(s) => Some(s.as_str()),
            _ => {
                proof {
                    lemma_table(*self);
                }
                None
            },
        }
    }
}

/// The string items of an array; nothing when there is no array.
pub fn string_list(item: Option<&Toml>) -> (r: Vec<String>)
    ensures
        text::texts(r@) == strings_of(toml_opt(item)),
{
    let mut out: Vec<String> = Vec::new();
    assert(text::texts(out@) =~= Seq::<Seq<char>>::empty());
    match item {
        Some(Toml::Array(items)) => {
            let ghost all = item->0@->Array_0;
            let mut i: usize = 0;
            while i < items.len()
                invariant
                    i <= items@.len(),
                    all.len() == items@.len(),
                    forall|j: int| 0 <= j < all.len() ==> all[j] == items@[j]@,
                    text::texts(out@) == texts_among(all, i as int),
                decreases items@.len() - i,
            {
                assert(all[i as int] == items@[i as int]@);
                match &items[i] {
                    Toml::Text(s) => {
                        let copy = s.clone();
                        proof {
                            text::lemma_texts_push(out@, copy);
                        }
                        out.push(copy);
                    },
                    _ => {
                        proof {
                            lemma_table(items@[i as int]);
                        }
                    },
                }
                i = i + 1;
            }
            out
        },
        Some(other) => {
            proof {
                lemma_table(*other);
            }
            out
        },
        None => out,
    }
}

// ---------------------------------------------------------------------------------------------
// Reading
// ---------------------------------------------------------------------------------------------

/// A TOML item of the `toml_edit` crate.
#[verifier::external_type_specification]
#[verifier::external_body]
pub struct ExItem(toml_edit::Item);

/// What a `toml_edit::Item` holds.
pub uninterp spec fn item_content(item: toml_edit::Item) -> TomlView;

/// The root table that `toml_edit` reads from a text, when it is TOML.
pub uninterp spec fn toml_document(text: Seq<char>) -> Option<TomlView>;

/// Parses a text into a `toml_edit::DocumentMut` and hands out its root item, or nothing when the
/// text is not TOML. Which item a text stands for is left to the name.
#[verifier::external_body]
fn parse_document(text: &str) -> (r: Option<toml_edit::Item>)
    ensures
        match r {
            Some(item) => toml_document(text@) == Some(item_content(item)),
            None => toml_document(text@) is None,
        },
{
    text.parse::<toml_edit::DocumentMut>().ok().map(|document| document.into_item())
}

/// Moves the content of a `toml_edit::Item`, variant by variant, into a [`Toml`].
#[verifier::external_body]
fn toml_of(item: toml_edit::Item) -> (r: Toml)
    ensures
        r@ == item_content(item),
{
    match item {
        toml_edit::Item::Value(toml_edit::Value::String(s)) => Toml::Text(s.into_value()),
        toml_edit::Item::Value(toml_edit::Value::Array(items)) => Toml::Array(
            items.into_iter().map(|value| toml_of(toml_edit::Item::Value(value))).collect(),
        ),
        toml_edit::Item::Value(toml_edit::Value::InlineTable(table)) => Toml::Inline(
            table.into_iter().map(|(key, value)| (key.to_string(), toml_of(toml_edit::Item::Value(value)))).collect(),
        ),
        toml_edit::Item::Table(table) => Toml::Table(
            table.into_iter().map(|(key, value)| (key.to_string(), toml_of(value))).collect(),
        ),
        _ => Toml::Other,
    }
}

/// Reads a TOML text.
pub fn read_toml(text: &str) -> (r: Option<Toml>)
    ensures
        match r {
            Some(item) => toml_document(text@) == Some(item@),
            None => toml_document(text@) is None,
        },
{
    match parse_document(text) {
        Some(item) => Some(toml_of(item)),
        None => None,
    }
}

/// An entry of a table of either kind is found by its key: the value is that of the first entry with
/// the key, and there is none when no entry has it.
pub proof fn law_first_entry_with_the_key(entries: Seq<EntryView>, key: Seq<char>, k: int)
    requires
        0 <= k <= entries.len(),
        forall|j: int| 0 <= j < k ==> (#[trigger] entries[j]).key != key,
        k < entries.len() ==> entries[k].key == key,
    ensures
        entry(TomlView::Table(entries), key) == (if k < entries.len() {
            Some(entries[k].value)
        } else {
            None
        }),
        entry(TomlView::Inline(entries), key) == entry(TomlView::Table(entries), key),
{
    lemma_entry_from(entries, key, k, 0);
}

proof fn lemma_entry_from(entries: Seq<EntryView>, key: Seq<char>, k: int, i: int)
    requires
        0 <= i <= k <= entries.len(),
        forall|j: int| 0 <= j < k ==> (#[trigger] entries[j]).key != key,
        k < entries.len() ==> entries[k].key == key,
    ensures
        entry_from(entries, key, i) == (if k < entries.len() {
            Some(entries[k].value)
        } else {
            None
        }),
    decreases k - i,
{
    if i < k {
        lemma_entry_from(entries, key, k, i + 1);
    }
}

/// The string items of an array are handed out one by one in their order, and what is no string is
/// left out.
pub proof fn law_strings_of_an_array(items: Seq<TomlView>)
    ensures
        strings_of(Some(TomlView::Array(Seq::empty()))) == Seq::<Seq<char>>::empty(),
        forall|s: Seq<char>|
            strings_of(Some(TomlView::Array(#[trigger] items.push(TomlView::Text(s)))))
                == strings_of(Some(TomlView::Array(items))).push(s),
        forall|other: TomlView|
            other is Text || strings_of(Some(TomlView::Array(#[trigger] items.push(other))))
                == strings_of(Some(TomlView::Array(items))),
{
    assert forall|last: TomlView| texts_among(#[trigger] items.push(last), items.len() as int)
        == texts_among(items, items.len() as int) by {
        lemma_texts_among(items, items.push(last), items.len() as int);
    }
}

proof fn lemma_texts_among(a: Seq<TomlView>, b: Seq<TomlView>, n: int)
    requires
        n <= a.len(),
        n <= b.len(),
        forall|i: int| 0 <= i < n ==> #[trigger] a[i] == b[i],
    ensures
        texts_among(a, n) == texts_among(b, n),
    decreases n,
{
    if n > 0 {
        lemma_texts_among(a, b, n - 1);
        assert(a[n - 1] == b[n - 1]);
    }
}

} // verus!
