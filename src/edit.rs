//! Edits of the string tables of a version resource. Each edit reaches every
//! table of every `StringFileInfo` child and leaves the other children alone.

use vstd::prelude::*;
use crate::table::{
    has_key, keys_unique, lookup, upsert, without, lemma_upsert_lookup, lemma_without_absent,
    lemma_upsert_unique, lemma_without_unique, lemma_lookup_without, lemma_lookup_upsert_other,
};
use crate::child::{
    Data, DataView, StringEntry, StringTable, VersionInfoChild, ChildView, entries_view,
    tables_view, find_entry, set_entry, remove_entry, find_table,
};
use crate::version::{VersionInfo, VersionInfoView, children_view, keys_distinct};
use crate::decode::child_keys_distinct;
use crate::fixed::{FileInfo, Version, version_text};

verus! {

/// An edit of the entries of one string table.
pub enum EntryEdit {
    /// Set a key to a text, in place or at the end.
    Put(Seq<char>, Seq<char>),
    /// Set a key to a text only where the key is present.
    Replace(Seq<char>, Seq<char>),
    /// Remove a key.
    Remove(Seq<char>),
}

/// The entries after an edit.
pub open spec fn edit_entries(es: Seq<(Seq<char>, DataView)>, op: EntryEdit) -> Seq<(Seq<char>, DataView)> {
    match op {
        EntryEdit::Put(k, t) => upsert(es, k, DataView::Text(t)),
        EntryEdit::Replace(k, t) => if has_key(es, k) {
            upsert(es, k, DataView::Text(t))
        } else {
            es
        },
        EntryEdit::Remove(k) => without(es, k),
    }
}

/// Every table after an edit of its entries.
pub open spec fn edit_tables(ts: Seq<(Seq<char>, Seq<(Seq<char>, DataView)>)>, op: EntryEdit) -> Seq<(Seq<char>, Seq<(Seq<char>, DataView)>)> {
    ts.map_values(|t: (Seq<char>, Seq<(Seq<char>, DataView)>)| (t.0, edit_entries(t.1, op)))
}

/// A child after an edit of its string tables.
pub open spec fn edit_child(c: ChildView, op: EntryEdit) -> ChildView {
    match c {
        ChildView::Strings(ts) => ChildView::Strings(edit_tables(ts, op)),
        ChildView::Vars(vs) => ChildView::Vars(vs),
    }
}

/// The version resource after an edit of all its string tables.
pub open spec fn edited(v: VersionInfoView, op: EntryEdit) -> VersionInfoView {
    VersionInfoView {
        data_type: v.data_type,
        key: v.key,
        info: v.info,
        children: v.children.map_values(|c: ChildView| edit_child(c, op)),
    }
}

/// The string tables with a table of language `lang` added where there is none.
pub open spec fn ensure_table(ts: Seq<(Seq<char>, Seq<(Seq<char>, DataView)>)>, lang: Seq<char>) -> Seq<(Seq<char>, Seq<(Seq<char>, DataView)>)> {
    if has_key(ts, lang) {
        ts
    } else {
        ts.push((lang, seq![]))
    }
}

/// The version resource with a table of language `lang` in every string file info.
pub open spec fn with_language(v: VersionInfoView, lang: Seq<char>) -> VersionInfoView {
    VersionInfoView {
        data_type: v.data_type,
        key: v.key,
        info: v.info,
        children: v.children.map_values(
            |c: ChildView|
                match c {
                    ChildView::Strings(ts) => ChildView::Strings(ensure_table(ts, lang)),
                    ChildView::Vars(vs) => ChildView::Vars(vs),
                },
        ),
    }
}

/// An edit to carry out.
enum TableEdit<'a> {
    Put(&'a str, &'a str),
    Replace(&'a str, &'a str),
    Remove(&'a str),
}

impl<'a> View for TableEdit<'a> {
    type V = EntryEdit;

    closed spec fn view(&self) -> EntryEdit {
        match self {
            TableEdit::Put(k, t) => EntryEdit::Put(k@, t@),
            TableEdit::Replace(k, t) => EntryEdit::Replace(k@, t@),
            TableEdit::Remove(k) => EntryEdit::Remove(k@),
        }
    }
}

fn apply_to_entries(entries: &mut Vec<StringEntry>, op: &TableEdit)
    ensures
        entries_view(final(entries)@) == edit_entries(entries_view(old(entries)@), op@),
{
    match op {
        TableEdit::Put(k, t) => {
            set_entry(entries, *k, Data::Text((*t).to_string()));
        },
        TableEdit::Replace(k, t) => {
            if find_entry(entries, *k).is_some() {
                set_entry(entries, *k, Data::Text((*t).to_string()));
            }
        },
        TableEdit::Remove(k) => {
            remove_entry(entries, *k);
        },
    }
}

fn apply_to_tables(tables: &mut Vec<StringTable>, op: &TableEdit)
    ensures
        tables_view(final(tables)@) == edit_tables(tables_view(old(tables)@), op@),
{
    let ghost s = tables_view(tables@);
    let n = tables.len();
    let mut i: usize = 0;
    while i < n
        invariant
            0 <= i <= n,
            n == tables@.len(),
            s.len() == n,
            tables_view(tables@) == edit_tables(s, op@).subrange(0, i as int) + s.subrange(
                i as int,
                n as int,
            ),
        decreases n - i,
    {
        let ghost before = tables_view(tables@);
        let mut t = tables.remove(i);
        assert(t@ == before[i as int]);
        apply_to_entries(&mut t.entries, op);
        tables.insert(i, t);
        assert(tables_view(tables@) =~= before.update(i as int, (before[i as int].0, edit_entries(before[i as int].1, op@))));
        assert(tables_view(tables@) =~= edit_tables(s, op@).subrange(0, i + 1) + s.subrange(
            i + 1,
            n as int,
        ));
        i = i + 1;
    }
    assert(tables_view(tables@) =~= edit_tables(s, op@));
}

fn apply_to_children(children: &mut Vec<VersionInfoChild>, op: &TableEdit)
    ensures
        children_view(final(children)@) == children_view(old(children)@).map_values(
            |c: ChildView| edit_child(c, op@),
        ),
{
    let ghost s = children_view(children@);
    let ghost target = s.map_values(|c: ChildView| edit_child(c, op@));
    let n = children.len();
    let mut i: usize = 0;
    while i < n
        invariant
            0 <= i <= n,
            n == children@.len(),
            s.len() == n,
            target == s.map_values(|c: ChildView| edit_child(c, op@)),
            children_view(children@) == target.subrange(0, i as int) + s.subrange(i as int, n as int),
        decreases n - i,
    {
        let ghost before = children_view(children@);
        let c = children.remove(i);
        assert(c@ == before[i as int]);
        let c2 = match c {
            VersionInfoChild::StringFileInfo { mut tables } => {
                apply_to_tables(&mut tables, op);
                VersionInfoChild::StringFileInfo { tables }
            },
            other => other,
        };
        assert(c2@ == edit_child(c@, op@));
        children.insert(i, c2);
        assert(children_view(children@) =~= before.update(i as int, target[i as int]));
        assert(children_view(children@) =~= target.subrange(0, i + 1) + s.subrange(i + 1, n as int));
        i = i + 1;
    }
    assert(children_view(children@) =~= target);
}

fn add_language(children: &mut Vec<VersionInfoChild>, lang: &str)
    ensures
        children_view(final(children)@) == children_view(old(children)@).map_values(
            |c: ChildView|
                match c {
                    ChildView::Strings(ts) => ChildView::Strings(ensure_table(ts, lang@)),
                    ChildView::Vars(vs) => ChildView::Vars(vs),
                },
        ),
{
    let ghost s = children_view(children@);
    let ghost target = s.map_values(
        |c: ChildView|
            match c {
                ChildView::Strings(ts) => ChildView::Strings(ensure_table(ts, lang@)),
                ChildView::Vars(vs) => ChildView::Vars(vs),
            },
    );
    let n = children.len();
    let mut i: usize = 0;
    while i < n
        invariant
            0 <= i <= n,
            n == children@.len(),
            s.len() == n,
            target == s.map_values(
                |c: ChildView|
                    match c {
                        ChildView::Strings(ts) => ChildView::Strings(ensure_table(ts, lang@)),
                        ChildView::Vars(vs) => ChildView::Vars(vs),
                    },
            ),
            children_view(children@) == target.subrange(0, i as int) + s.subrange(i as int, n as int),
        decreases n - i,
    {
        let ghost before = children_view(children@);
        let c = children.remove(i);
        assert(c@ == before[i as int]);
        let c2 = match c {
            VersionInfoChild::StringFileInfo { mut tables } => {
                if find_table(&tables, lang).is_none() {
                    let ghost tv = tables_view(tables@);
                    let fresh = StringTable { lang: lang.to_string(), entries: Vec::new() };
                    assert(entries_view(fresh.entries@) =~= seq![]);
                    tables.push(fresh);
                    assert(tables_view(tables@) =~= tv.push((lang@, seq![])));
                }
                VersionInfoChild::StringFileInfo { tables }
            },
            other => other,
        };
        assert(c2@ == target[i as int]);
        children.insert(i, c2);
        assert(children_view(children@) =~= before.update(i as int, target[i as int]));
        assert(children_view(children@) =~= target.subrange(0, i + 1) + s.subrange(i + 1, n as int));
        i = i + 1;
    }
    assert(children_view(children@) =~= target);
}

/// The version resource with the fixed file record `info`.
pub open spec fn with_info(v: VersionInfoView, info: FileInfo) -> VersionInfoView {
    VersionInfoView { data_type: v.data_type, key: v.key, info, children: v.children }
}

/// The version resource after the setter of the file version.
pub open spec fn file_version_set(v: VersionInfoView, ver: Version) -> VersionInfoView {
    edited(
        with_info(v, FileInfo { file_version: ver, ..v.info }),
        EntryEdit::Put("FileVersion"@, version_text(ver)),
    )
}

/// The version resource after the setter of the product version.
pub open spec fn product_version_set(v: VersionInfoView, ver: Version) -> VersionInfoView {
    edited(
        with_info(v, FileInfo { product_version: ver, ..v.info }),
        EntryEdit::Put("ProductVersion"@, version_text(ver)),
    )
}

/// The version resource after setting each pair in turn.
pub open spec fn put_all(v: VersionInfoView, pairs: Seq<(Seq<char>, Seq<char>)>) -> VersionInfoView
    decreases pairs.len(),
{
    if pairs.len() == 0 {
        v
    } else {
        edited(put_all(v, pairs.drop_last()), EntryEdit::Put(pairs.last().0, pairs.last().1))
    }
}

impl VersionInfo {
    /// Sets the file version of the fixed file record, and the text
    /// `FileVersion` to that version in every string table.
    pub fn set_file_version(&mut self, v: &[u16; 4]) -> (r: &mut Self)
        ensures
            (*r)@ == file_version_set(old(self)@, Version(*v)),
            *final(self) == *final(r),
    {
        let ver = Version(*v);
        self.info.file_version = ver;
        let text = ver.to_string();
        apply_to_children(&mut self.children, &TableEdit::Put("FileVersion", text.as_str()));
        self
    }

    /// Sets the product version of the fixed file record, and the text
    /// `ProductVersion` to that version in every string table.
    pub fn set_product_version(&mut self, v: &[u16; 4]) -> (r: &mut Self)
        ensures
            (*r)@ == product_version_set(old(self)@, Version(*v)),
            *final(self) == *final(r),
    {
        let ver = Version(*v);
        self.info.product_version = ver;
        let text = ver.to_string();
        apply_to_children(&mut self.children, &TableEdit::Put("ProductVersion", text.as_str()));
        self
    }

    /// Sets both the file version and the product version.
    pub fn set_version(&mut self, v: &[u16; 4]) -> (r: &mut Self)
        ensures
            (*r)@ == product_version_set(file_version_set(old(self)@, Version(*v)), Version(*v)),
            *final(self) == *final(r),
    {
        self.set_file_version(v);
        self.set_product_version(v);
        self
    }

    /// Sets `key` to `text` in the string tables that hold `key`.
    pub fn replace_string(&mut self, key: &str, text: &str) -> (r: &mut Self)
        ensures
            (*r)@ == edited(old(self)@, EntryEdit::Replace(key@, text@)),
            *final(self) == *final(r),
    {
        apply_to_children(&mut self.children, &TableEdit::Replace(key, text));
        self
    }

    /// Sets `key` to `text` in every string table.
    pub fn insert_string(&mut self, key: &str, text: &str) -> (r: &mut Self)
        ensures
            (*r)@ == edited(old(self)@, EntryEdit::Put(key@, text@)),
            *final(self) == *final(r),
    {
        apply_to_children(&mut self.children, &TableEdit::Put(key, text));
        self
    }

    /// Sets each key to its text in every string table, pair after pair.
    pub fn insert_strings(&mut self, tuples: &[(&str, &str)]) -> (r: &mut Self)
        ensures
            (*r)@ == put_all(old(self)@, tuples@.map_values(|p: (&str, &str)| (p.0@, p.1@))),
            *final(self) == *final(r),
    {
        let ghost pairs = tuples@.map_values(|p: (&str, &str)| (p.0@, p.1@));
        let ghost start = self@;
        let mut i: usize = 0;
        while i < tuples.len()
            invariant
                0 <= i <= tuples@.len(),
                pairs == tuples@.map_values(|p: (&str, &str)| (p.0@, p.1@)),
                self@ == put_all(start, pairs.subrange(0, i as int)),
            decreases tuples@.len() - i,
        {
            let (k, t) = tuples[i];
            apply_to_children(&mut self.children, &TableEdit::Put(k, t));
            proof {
                let s = pairs.subrange(0, i + 1);
                assert(s.drop_last() =~= pairs.subrange(0, i as int));
            }
            i = i + 1;
        }
        assert(pairs.subrange(0, pairs.len() as int) =~= pairs);
        self
    }

    /// Removes `key` from every string table.
    pub fn remove_string(&mut self, key: &str) -> (r: &mut Self)
        ensures
            (*r)@ == edited(old(self)@, EntryEdit::Remove(key@)),
            *final(self) == *final(r),
    {
        apply_to_children(&mut self.children, &TableEdit::Remove(key));
        self
    }

    /// Adds an empty string table of language `lang` to every string file
    /// info that has none.
    pub fn ensure_language(&mut self, lang: &str) -> (r: &mut Self)
        ensures
            (*r)@ == with_language(old(self)@, lang@),
            *final(self) == *final(r),
    {
        add_language(&mut self.children, lang);
        self
    }
}

/// The string tables of a child; none for a var file info.
pub open spec fn tables_of(c: ChildView) -> Seq<(Seq<char>, Seq<(Seq<char>, DataView)>)> {
    match c {
        ChildView::Strings(ts) => ts,
        ChildView::Vars(_) => seq![],
    }
}

/// Replacing a key that no string table holds changes nothing.
pub proof fn lemma_replace_absent(v: VersionInfoView, key: Seq<char>, text: Seq<char>)
    requires
        forall|i: int, j: int|
            0 <= i < v.children.len() && 0 <= j < tables_of(v.children[i]).len() ==> !has_key(
                #[trigger] tables_of(v.children[i])[j].1,
                key,
            ),
    ensures
        edited(v, EntryEdit::Replace(key, text)) == v,
{
    let op = EntryEdit::Replace(key, text);
    let r = edited(v, op);
    assert forall|i: int| 0 <= i < v.children.len() implies #[trigger] r.children[i] == v.children[i] by {
        match v.children[i] {
            ChildView::Strings(ts) => {
                assert(tables_of(v.children[i]) == ts);
                assert(edit_tables(ts, op) =~= ts) by {
                    assert forall|j: int| 0 <= j < ts.len() implies #[trigger] edit_tables(ts, op)[j] == ts[j] by {
                        assert(!has_key(tables_of(v.children[i])[j].1, key));
                    }
                }
            },
            ChildView::Vars(_) => {},
        }
    }
    assert(r.children =~= v.children);
}

/// The version resource after removing `key`.
pub open spec fn key_removed(v: VersionInfoView, key: Seq<char>) -> VersionInfoView {
    edited(v, EntryEdit::Remove(key))
}

/// The version resource after removing `key` and then setting it to `text`.
pub open spec fn key_restored(v: VersionInfoView, key: Seq<char>, text: Seq<char>) -> VersionInfoView {
    edited(key_removed(v, key), EntryEdit::Put(key, text))
}

/// After removing a key, no string table holds it; after setting it again,
/// every string table holds it with the new text. The tables themselves,
/// their languages and the var file infos stay as they were.
pub proof fn lemma_remove_then_insert(v: VersionInfoView, key: Seq<char>, text: Seq<char>)
    ensures
        key_removed(v, key).children.len() == v.children.len(),
        key_restored(v, key, text).children.len() == v.children.len(),
        forall|i: int|
            0 <= i < v.children.len() ==> (#[trigger] v.children[i] is Vars ==> key_restored(
                v,
                key,
                text,
            ).children[i] == v.children[i]),
        forall|i: int, j: int|
            0 <= i < v.children.len() && 0 <= j < tables_of(v.children[i]).len() ==> {
                &&& tables_of(key_removed(v, key).children[i]).len() == tables_of(
                    v.children[i],
                ).len()
                &&& tables_of(key_restored(v, key, text).children[i]).len() == tables_of(
                    v.children[i],
                ).len()
                &&& tables_of(key_removed(v, key).children[i])[j].0 == (#[trigger] tables_of(
                    v.children[i],
                )[j]).0
                &&& tables_of(key_restored(v, key, text).children[i])[j].0 == tables_of(
                    v.children[i],
                )[j].0
                &&& !has_key(tables_of(key_removed(v, key).children[i])[j].1, key)
                &&& lookup(tables_of(key_restored(v, key, text).children[i])[j].1, key) == Some(
                    DataView::Text(text),
                )
            },
{
    let a = key_removed(v, key);
    let b = key_restored(v, key, text);
    assert forall|i: int, j: int|
        0 <= i < v.children.len() && 0 <= j < tables_of(v.children[i]).len() implies {
            &&& tables_of(a.children[i]).len() == tables_of(v.children[i]).len()
            &&& tables_of(b.children[i]).len() == tables_of(v.children[i]).len()
            &&& tables_of(a.children[i])[j].0 == (#[trigger] tables_of(v.children[i])[j]).0
            &&& tables_of(b.children[i])[j].0 == tables_of(v.children[i])[j].0
            &&& !has_key(tables_of(a.children[i])[j].1, key)
            &&& lookup(tables_of(b.children[i])[j].1, key) == Some(DataView::Text(text))
        } by {
        let ts = tables_of(v.children[i]);
        assert(v.children[i] is Strings);
        let es = without(ts[j].1, key);
        lemma_without_absent(ts[j].1, key);
        lemma_upsert_lookup(es, key, DataView::Text(text));
        assert(tables_of(a.children[i])[j].1 == es);
        assert(tables_of(b.children[i])[j].1 == upsert(es, key, DataView::Text(text)));
    }
}

/// Where each list holds each key once, removing a key and setting it again
/// leaves every other key of every string table with the value it had.
pub proof fn lemma_remove_then_insert_keeps_others(v: VersionInfoView, key: Seq<char>, text: Seq<char>)
    requires
        keys_distinct(v),
    ensures
        forall|i: int, j: int, q: Seq<char>|
            0 <= i < v.children.len() && 0 <= j < tables_of(v.children[i]).len() && q != key ==> lookup(
                tables_of(key_restored(v, key, text).children[i])[j].1,
                q,
            ) == #[trigger] lookup(tables_of(v.children[i])[j].1, q),
{
    let a = key_removed(v, key);
    let b = key_restored(v, key, text);
    assert forall|i: int, j: int, q: Seq<char>|
        0 <= i < v.children.len() && 0 <= j < tables_of(v.children[i]).len() && q != key implies lookup(
            tables_of(b.children[i])[j].1,
            q,
        ) == #[trigger] lookup(tables_of(v.children[i])[j].1, q) by {
        assert(child_keys_distinct(v.children[i]));
        let ts = tables_of(v.children[i]);
        assert(v.children[i] is Strings);
        let es = ts[j].1;
        assert(keys_unique(es));
        let removed = without(es, key);
        lemma_lookup_without(es, key, q);
        lemma_without_unique(es, key);
        lemma_lookup_upsert_other(removed, key, DataView::Text(text), q);
        assert(tables_of(a.children[i])[j].1 == removed);
        assert(tables_of(b.children[i])[j].1 == upsert(removed, key, DataView::Text(text)));
    }
}

/// Setting the file version sets it in the fixed file record and sets the
/// text `FileVersion` to it in every string table, whichever tables there are.
pub proof fn lemma_file_version_everywhere(v: VersionInfoView, ver: Version)
    ensures
        file_version_set(v, ver).info.file_version == ver,
        file_version_set(v, ver).children.len() == v.children.len(),
        forall|i: int, j: int|
            0 <= i < v.children.len() && 0 <= j < tables_of(v.children[i]).len() ==> {
                &&& tables_of(file_version_set(v, ver).children[i]).len() == tables_of(v.children[i]).len()
                &&& tables_of(file_version_set(v, ver).children[i])[j].0 == (#[trigger] tables_of(v.children[i])[j]).0
                &&& lookup(tables_of(file_version_set(v, ver).children[i])[j].1, "FileVersion"@) == Some(
                    DataView::Text(version_text(ver)),
                )
            },
{
    let r = file_version_set(v, ver);
    assert forall|i: int, j: int|
        0 <= i < v.children.len() && 0 <= j < tables_of(v.children[i]).len() implies {
            &&& tables_of(r.children[i]).len() == tables_of(v.children[i]).len()
            &&& tables_of(r.children[i])[j].0 == (#[trigger] tables_of(v.children[i])[j]).0
            &&& lookup(tables_of(r.children[i])[j].1, "FileVersion"@) == Some(DataView::Text(version_text(ver)))
        } by {
        assert(v.children[i] is Strings);
        let es = tables_of(v.children[i])[j].1;
        lemma_upsert_lookup(es, "FileVersion"@, DataView::Text(version_text(ver)));
    }
}

/// Adding a language twice is adding it once; where each list holds each key
/// once (as decoding leaves it), every string file info then holds exactly
/// one table of that language.
pub proof fn lemma_ensure_language_twice(v: VersionInfoView, lang: Seq<char>)
    requires
        keys_distinct(v),
    ensures
        with_language(with_language(v, lang), lang) == with_language(v, lang),
        forall|i: int| 0 <= i < v.children.len() ==> (#[trigger] v.children[i] is Strings ==> {
            let ts = tables_of(with_language(with_language(v, lang), lang).children[i]);
            &&& has_key(ts, lang)
            &&& forall|a: int, b: int|
                0 <= a < ts.len() && 0 <= b < ts.len() && ts[a].0 == lang && ts[b].0 == lang ==> a == b
        }),
{
    let once = with_language(v, lang);
    let twice = with_language(once, lang);
    assert forall|i: int| 0 <= i < v.children.len() implies #[trigger] twice.children[i] == once.children[i] by {
        match v.children[i] {
            ChildView::Strings(ts) => {
                let t1 = ensure_table(ts, lang);
                assert(once.children[i] == ChildView::Strings(t1));
                assert(has_key(t1, lang)) by {
                    if !has_key(ts, lang) {
                        assert(t1[ts.len() as int].0 == lang);
                    }
                }
            },
            ChildView::Vars(_) => {},
        }
    }
    assert(twice.children =~= once.children);
    assert forall|i: int| 0 <= i < v.children.len() implies (#[trigger] v.children[i] is Strings ==> {
        let ts = tables_of(twice.children[i]);
        &&& has_key(ts, lang)
        &&& forall|a: int, b: int|
            0 <= a < ts.len() && 0 <= b < ts.len() && ts[a].0 == lang && ts[b].0 == lang ==> a == b
    }) by {
        if let ChildView::Strings(ts0) = v.children[i] {
            assert(child_keys_distinct(v.children[i]));
            let t1 = ensure_table(ts0, lang);
            assert(tables_of(twice.children[i]) == t1);
            assert(keys_unique(ts0));
            if !has_key(ts0, lang) {
                assert(t1[ts0.len() as int].0 == lang);
                assert forall|a: int| 0 <= a < ts0.len() implies #[trigger] t1[a].0 != lang by {
                    assert(t1[a] == ts0[a]);
                }
            }
        }
    }
}

/// An edit of the entries keeps each key once in each list.
pub proof fn lemma_edit_keeps_keys_distinct(v: VersionInfoView, op: EntryEdit)
    requires
        keys_distinct(v),
    ensures
        keys_distinct(edited(v, op)),
{
    let r = edited(v, op);
    assert forall|i: int| 0 <= i < r.children.len() implies child_keys_distinct(#[trigger] r.children[i]) by {
        assert(child_keys_distinct(v.children[i]));
        if let ChildView::Strings(ts) = v.children[i] {
            let et = edit_tables(ts, op);
            assert(r.children[i] == ChildView::Strings(et));
            assert forall|a: int, b: int| 0 <= a < et.len() && 0 <= b < et.len() && a != b implies #[trigger] et[a].0 != #[trigger] et[b].0 by {
                assert(ts[a].0 != ts[b].0);
            }
            assert forall|k: int| 0 <= k < et.len() implies keys_unique(#[trigger] et[k].1) by {
                let es = ts[k].1;
                assert(keys_unique(es));
                match op {
                    EntryEdit::Put(key, t) => {
                        lemma_upsert_unique(es, key, DataView::Text(t));
                    },
                    EntryEdit::Replace(key, t) => {
                        lemma_upsert_unique(es, key, DataView::Text(t));
                    },
                    EntryEdit::Remove(key) => {
                        lemma_without_unique(es, key);
                    },
                }
            }
        }
    }
}

/// Adding a language keeps each key once in each list.
pub proof fn lemma_with_language_keeps_keys_distinct(v: VersionInfoView, lang: Seq<char>)
    requires
        keys_distinct(v),
    ensures
        keys_distinct(with_language(v, lang)),
{
    let r = with_language(v, lang);
    assert forall|i: int| 0 <= i < r.children.len() implies child_keys_distinct(#[trigger] r.children[i]) by {
        assert(child_keys_distinct(v.children[i]));
        if let ChildView::Strings(ts) = v.children[i] {
            let et = ensure_table(ts, lang);
            assert(r.children[i] == ChildView::Strings(et));
            if !has_key(ts, lang) {
                assert forall|a: int, b: int| 0 <= a < et.len() && 0 <= b < et.len() && a != b implies #[trigger] et[a].0 != #[trigger] et[b].0 by {
                    if a == ts.len() {
                        assert(et[b] == ts[b]);
                    } else if b == ts.len() {
                        assert(et[a] == ts[a]);
                    } else {
                        assert(ts[a].0 != ts[b].0);
                    }
                }
                assert forall|k: int| 0 <= k < et.len() implies keys_unique(#[trigger] et[k].1) by {
                    if k < ts.len() {
                        assert(et[k] == ts[k]);
                    } else {
                        assert(et[k].1 =~= Seq::<(Seq<char>, DataView)>::empty());
                    }
                }
            }
        }
    }
}

} // verus!
