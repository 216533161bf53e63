//! The children of a version resource: `StringFileInfo`, string tables keyed
//! by language and code page, and `VarFileInfo`, arrays of words keyed by name.

use vstd::prelude::*;
use crate::table::{has_key, key_index, upsert, without, lemma_key_index};

verus! {

/// A stored value: raw bytes or text.
#[derive(Debug, Clone)]
pub enum Data {
    Binary(Vec<u8>),
    Text(String),
}

/// What a [`Data`] holds, for contracts.
pub enum DataView {
    Binary(Seq<u8>),
    Text(Seq<char>),
}

impl View for Data {
    type V = DataView;

    open spec fn view(&self) -> DataView {
        match self {
            Data::Binary(b) => DataView::Binary(b@),
            Data::Text(t) => DataView::Text(t@),
        }
    }
}

impl Data {
    /// A copy of the value.
    pub fn duplicate(&self) -> (r: Data)
        ensures
            r@ == self@,
    {
        match self {
            Data::Binary(b) => {
                let c = b.clone();
                assert(c@ =~= b@);
                Data::Binary(c)
            },
            Data::Text(t) => Data::Text(t.clone()),
        }
    }
}

/// One named value of a string table.
#[derive(Debug, Clone)]
pub struct StringEntry {
    pub key: String,
    pub value: Data,
}

impl View for StringEntry {
    type V = (Seq<char>, DataView);

    open spec fn view(&self) -> (Seq<char>, DataView) {
        (self.key@, self.value@)
    }
}

/// The string table of one language and code page (conventionally eight hex
/// digits, such as `040904B0`).
#[derive(Debug, Clone)]
pub struct StringTable {
    pub lang: String,
    pub entries: Vec<StringEntry>,
}

/// The pairs of a list of entries.
pub open spec fn entries_view(v: Seq<StringEntry>) -> Seq<(Seq<char>, DataView)> {
    v.map_values(|e: StringEntry| e@)
}

impl View for StringTable {
    type V = (Seq<char>, Seq<(Seq<char>, DataView)>);

    open spec fn view(&self) -> (Seq<char>, Seq<(Seq<char>, DataView)>) {
        (self.lang@, entries_view(self.entries@))
    }
}

/// The pairs of a list of string tables.
pub open spec fn tables_view(v: Seq<StringTable>) -> Seq<(Seq<char>, Seq<(Seq<char>, DataView)>)> {
    v.map_values(|t: StringTable| t@)
}

/// One named array of words (conventionally `Translation`).
#[derive(Debug, Clone)]
pub struct Var {
    pub key: String,
    pub values: Vec<u32>,
}

impl View for Var {
    type V = (Seq<char>, Seq<u32>);

    open spec fn view(&self) -> (Seq<char>, Seq<u32>) {
        (self.key@, self.values@)
    }
}

/// The pairs of a list of arrays.
pub open spec fn vars_view(v: Seq<Var>) -> Seq<(Seq<char>, Seq<u32>)> {
    v.map_values(|x: Var| x@)
}

/// A child of the version resource.
#[derive(Debug, Clone)]
pub enum VersionInfoChild {
    StringFileInfo { tables: Vec<StringTable> },
    VarFileInfo { vars: Vec<Var> },
}

/// What a [`VersionInfoChild`] holds, for contracts.
pub enum ChildView {
    Strings(Seq<(Seq<char>, Seq<(Seq<char>, DataView)>)>),
    Vars(Seq<(Seq<char>, Seq<u32>)>),
}

impl View for VersionInfoChild {
    type V = ChildView;

    open spec fn view(&self) -> ChildView {
        match self {
            VersionInfoChild::StringFileInfo { tables } => ChildView::Strings(tables_view(tables@)),
            VersionInfoChild::VarFileInfo { vars } => ChildView::Vars(vars_view(vars@)),
        }
    }
}

/// The index of the first entry with key `key`, if any.
pub fn find_entry(entries: &Vec<StringEntry>, key: &str) -> (r: Option<usize>)
    ensures
        match r {
            Some(i) => has_key(entries_view(entries@), key@) && i == key_index(
                entries_view(entries@),
                key@,
            ) && i < entries@.len() && entries@[i as int].key@ == key@,
            None => !has_key(entries_view(entries@), key@),
        },
{
    let ghost s = entries_view(entries@);
    let k = key.to_string();
    let mut i: usize = 0;
    while i < entries.len()
        invariant
            0 <= i <= entries@.len(),
            s == entries_view(entries@),
            k@ == key@,
            forall|j: int| 0 <= j < i ==> #[trigger] s[j].0 != key@,
        decreases entries@.len() - i,
    {
        if entries[i].key == k {
            proof {
                lemma_key_index(s, key@, i as int);
            }
            return Some(i);
        }
        i = i + 1;
    }
    None
}

/// Sets `key` to `value`: in place where the key is present, else at the end.
pub fn set_entry(entries: &mut Vec<StringEntry>, key: &str, value: Data)
    ensures
        entries_view(final(entries)@) == upsert(entries_view(old(entries)@), key@, value@),
{
    let ghost s = entries_view(entries@);
    match find_entry(entries, key) {
        Some(i) => {
            let e = StringEntry { key: key.to_string(), value };
            entries.set(i, e);
            assert(entries_view(entries@) =~= s.update(i as int, (key@, value@)));
        },
        None => {
            entries.push(StringEntry { key: key.to_string(), value });
            assert(entries_view(entries@) =~= s.push((key@, value@)));
        },
    }
}

/// The index of the first table of language `lang`, if any.
pub fn find_table(tables: &Vec<StringTable>, lang: &str) -> (r: Option<usize>)
    ensures
        match r {
            Some(i) => has_key(tables_view(tables@), lang@) && i == key_index(
                tables_view(tables@),
                lang@,
            ) && i < tables@.len() && tables@[i as int].lang@ == lang@,
            None => !has_key(tables_view(tables@), lang@),
        },
{
    let ghost s = tables_view(tables@);
    let k = lang.to_string();
    let mut i: usize = 0;
    while i < tables.len()
        invariant
            0 <= i <= tables@.len(),
            s == tables_view(tables@),
            k@ == lang@,
            forall|j: int| 0 <= j < i ==> #[trigger] s[j].0 != lang@,
        decreases tables@.len() - i,
    {
        if tables[i].lang == k {
            proof {
                lemma_key_index(s, lang@, i as int);
            }
            return Some(i);
        }
        i = i + 1;
    }
    None
}

/// Sets the table of language `lang` to `entries`: in place where there is
/// one, else at the end.
pub fn set_table(tables: &mut Vec<StringTable>, lang: String, entries: Vec<StringEntry>)
    ensures
        tables_view(final(tables)@) == upsert(tables_view(old(tables)@), lang@, entries_view(entries@)),
{
    let ghost s = tables_view(tables@);
    let ghost l = lang@;
    let ghost ev = entries_view(entries@);
    match find_table(tables, lang.as_str()) {
        Some(i) => {
            tables.set(i, StringTable { lang, entries });
            assert(tables_view(tables@) =~= s.update(i as int, (l, ev)));
        },
        None => {
            tables.push(StringTable { lang, entries });
            assert(tables_view(tables@) =~= s.push((l, ev)));
        },
    }
}

/// Sets the array named `key` to `values`: in place where there is one, else
/// at the end.
pub fn set_var(vars: &mut Vec<Var>, key: String, values: Vec<u32>)
    ensures
        vars_view(final(vars)@) == upsert(vars_view(old(vars)@), key@, values@),
{
    let ghost s = vars_view(vars@);
    let ghost kv = key@;
    let ghost vv = values@;
    match find_var(vars, &key) {
        Some(i) => {
            vars.set(i, Var { key, values });
            assert(vars_view(vars@) =~= s.update(i as int, (kv, vv)));
        },
        None => {
            vars.push(Var { key, values });
            assert(vars_view(vars@) =~= s.push((kv, vv)));
        },
    }
}

/// The index of the first array named `key`, if any.
fn find_var(vars: &Vec<Var>, key: &String) -> (r: Option<usize>)
    ensures
        match r {
            Some(i) => has_key(vars_view(vars@), key@) && i == key_index(vars_view(vars@), key@)
                && i < vars@.len(),
            None => !has_key(vars_view(vars@), key@),
        },
{
    let ghost s = vars_view(vars@);
    let mut i: usize = 0;
    while i < vars.len()
        invariant
            0 <= i <= vars@.len(),
            s == vars_view(vars@),
            forall|j: int| 0 <= j < i ==> #[trigger] s[j].0 != key@,
        decreases vars@.len() - i,
    {
        if vars[i].key == *key {
            proof {
                lemma_key_index(s, key@, i as int);
            }
            return Some(i);
        }
        i = i + 1;
    }
    None
}

/// Removes the entries with key `key`.
pub fn remove_entry(entries: &mut Vec<StringEntry>, key: &str)
    ensures
        entries_view(final(entries)@) == without(entries_view(old(entries)@), key@),
{
    let ghost s = entries_view(entries@);
    let mut kept: Vec<StringEntry> = Vec::new();
    let k = key.to_string();
    let mut i: usize = 0;
    while i < entries.len()
        invariant
            0 <= i <= entries@.len(),
            k@ == key@,
            s == entries_view(entries@),
            entries_view(kept@) == without(s.subrange(0, i as int), key@),
        decreases entries@.len() - i,
    {
        let ghost before = kept@;
        if entries[i].key != k {
            let e = StringEntry { key: entries[i].key.clone(), value: entries[i].value.duplicate() };
            kept.push(e);
        }
        proof {
            let p = s.subrange(0, i + 1);
            assert(p.drop_last() =~= s.subrange(0, i as int));
            assert(p.last() == s[i as int]);
            lemma_filter_push(s.subrange(0, i as int), s[i as int], key@);
            assert(p =~= s.subrange(0, i as int).push(s[i as int]));
            if s[i as int].0 != key@ {
                assert(entries_view(kept@) =~= entries_view(before).push(s[i as int]));
            } else {
                assert(kept@ == before);
            }
            assert(entries_view(kept@) =~= without(p, key@));
        }
        i = i + 1;
    }
    assert(s.subrange(0, s.len() as int) =~= s);
    *entries = kept;
}

/// Filtering after a push.
proof fn lemma_filter_push<V>(s: Seq<(Seq<char>, V)>, x: (Seq<char>, V), k: Seq<char>)
    ensures
        without(s.push(x), k) == if x.0 != k {
            without(s, k).push(x)
        } else {
            without(s, k)
        },
{
    assert(s.push(x).drop_last() =~= s);
    reveal(Seq::filter);
}

} // verus!
