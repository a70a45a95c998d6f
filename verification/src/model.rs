//! The document tree, its mathematical model, and lookups and edits on it.
use vstd::prelude::*;

verus! {

broadcast use vstd::seq::group_seq_axioms;

/// A value: plain text, or a nested list of entries.
#[derive(Debug, PartialEq, Eq)]
pub enum Value {
    Str(String),
    Nested(Vec<Entry>),
}

/// One `key :value` line (or a nested map under `key`).
#[derive(Debug, PartialEq, Eq)]
pub struct Entry {
    pub key: String,
    pub value: Value,
}

/// A `:name` .. `:end` block.
#[derive(Debug, PartialEq, Eq)]
pub struct Section {
    pub name: String,
    pub entries: Vec<Entry>,
}

/// A whole document: header lines and blocks, in file order.
#[derive(Debug, PartialEq, Eq)]
pub struct Document {
    pub meta: Vec<(String, String)>,
    pub sections: Vec<Section>,
}

/// The mathematical content of a [`Value`].
pub enum ValueModel {
    Text(Seq<char>),
    Nested(Seq<EntryModel>),
}

/// The mathematical content of an [`Entry`].
pub struct EntryModel {
    pub key: Seq<char>,
    pub value: ValueModel,
}

/// The mathematical content of a [`Section`].
pub struct SectionModel {
    pub name: Seq<char>,
    pub entries: Seq<EntryModel>,
}

/// The mathematical content of a [`Document`].
pub struct DocumentModel {
    pub meta: Seq<(Seq<char>, Seq<char>)>,
    pub sections: Seq<SectionModel>,
}

/// The model of a value: its text, or the models of its entries.
pub open spec fn value_model(v: Value) -> ValueModel
    decreases v,
{
    match v {
        Value::Str(s) => ValueModel::Text(s@),
        Value::Nested(m) => ValueModel::Nested(entries_model(m@)),
    }
}

/// The model of an entry: the characters of its key and the model of its value.
pub open spec fn entry_model(e: Entry) -> EntryModel
    decreases e,
{
    EntryModel { key: e.key@, value: value_model(e.value) }
}

/// The models of a sequence of entries, in order.
pub open spec fn entries_model(es: Seq<Entry>) -> Seq<EntryModel>
    decreases es,
{
    if es.len() == 0 {
        Seq::empty()
    } else {
        seq![entry_model(es[0])] + entries_model(es.drop_first())
    }
}

pub broadcast proof fn lemma_entries_model(es: Seq<Entry>)
    ensures
        #[trigger] entries_model(es).len() == es.len(),
        forall|i: int| 0 <= i < es.len() ==> #[trigger] entries_model(es)[i] == entry_model(es[i]),
    decreases es.len(),
{
    if es.len() > 0 {
        lemma_entries_model(es.drop_first());
    }
}

/// The models of a sequence of header lines, in order.
pub open spec fn meta_model(ms: Seq<(String, String)>) -> Seq<(Seq<char>, Seq<char>)> {
    ms.map_values(|p: (String, String)| (p.0@, p.1@))
}

/// The models of a sequence of sections, in order.
pub open spec fn sections_model(ss: Seq<Section>) -> Seq<SectionModel> {
    ss.map_values(|s: Section| s@)
}

impl View for Value {
    type V = ValueModel;

    open spec fn view(&self) -> ValueModel {
        value_model(*self)
    }
}

impl View for Entry {
    type V = EntryModel;

    open spec fn view(&self) -> EntryModel {
        entry_model(*self)
    }
}

impl View for Section {
    type V = SectionModel;

    open spec fn view(&self) -> SectionModel {
        SectionModel { name: self.name@, entries: entries_model(self.entries@) }
    }
}

impl View for Document {
    type V = DocumentModel;

    open spec fn view(&self) -> DocumentModel {
        DocumentModel {
            meta: meta_model(self.meta@),
            sections: sections_model(self.sections@),
        }
    }
}

/// `i` is the position of the first entry whose key is `key`.
pub open spec fn is_first_key(es: Seq<EntryModel>, key: Seq<char>, i: int) -> bool {
    &&& 0 <= i < es.len()
    &&& es[i].key == key
    &&& forall|j: int| 0 <= j < i ==> es[j].key != key
}

/// The position of the first entry whose key is `key`, if there is one.
pub open spec fn key_index(es: Seq<EntryModel>, key: Seq<char>) -> Option<int> {
    if exists|i: int| is_first_key(es, key, i) {
        Some(choose|i: int| is_first_key(es, key, i))
    } else {
        None
    }
}

/// The value stored under the first entry whose key is `key`.
pub open spec fn lookup(es: Seq<EntryModel>, key: Seq<char>) -> Option<ValueModel> {
    match key_index(es, key) {
        Some(i) => Some(es[i].value),
        None => None,
    }
}

/// The entries after setting `key` to `value`: the first entry with that key
/// keeps its key and position and takes the value; without one, a new entry
/// is appended.
pub open spec fn set_entries(es: Seq<EntryModel>, key: Seq<char>, value: ValueModel) -> Seq<
    EntryModel,
> {
    match key_index(es, key) {
        Some(i) => es.update(i, EntryModel { key: es[i].key, value }),
        None => es.push(EntryModel { key, value }),
    }
}

/// The entries after removing the first entry whose key is `key`.
pub open spec fn remove_entries(es: Seq<EntryModel>, key: Seq<char>) -> Seq<EntryModel> {
    match key_index(es, key) {
        Some(i) => es.remove(i),
        None => es,
    }
}

/// `i` is the position of the first section named `name`.
pub open spec fn is_first_section(ss: Seq<SectionModel>, name: Seq<char>, i: int) -> bool {
    &&& 0 <= i < ss.len()
    &&& ss[i].name == name
    &&& forall|j: int| 0 <= j < i ==> ss[j].name != name
}

/// The position of the first section named `name`, if there is one.
pub open spec fn section_index(ss: Seq<SectionModel>, name: Seq<char>) -> Option<int> {
    if exists|i: int| is_first_section(ss, name, i) {
        Some(choose|i: int| is_first_section(ss, name, i))
    } else {
        None
    }
}

pub proof fn lemma_key_index(es: Seq<EntryModel>, key: Seq<char>, i: int)
    requires
        is_first_key(es, key, i),
    ensures
        key_index(es, key) == Some(i),
{
    let k = choose|k: int| is_first_key(es, key, k);
    assert(is_first_key(es, key, k));
    if k < i {
        assert(es[k].key != key);
    } else if i < k {
        assert(es[i].key != key);
    }
}

pub proof fn lemma_section_index(ss: Seq<SectionModel>, name: Seq<char>, i: int)
    requires
        is_first_section(ss, name, i),
    ensures
        section_index(ss, name) == Some(i),
{
    let k = choose|k: int| is_first_section(ss, name, k);
    assert(is_first_section(ss, name, k));
    if k < i {
        assert(ss[k].name != name);
    } else if i < k {
        assert(ss[i].name != name);
    }
}

/// The position of the first entry of `entries` whose key is `key`.
fn find_index(entries: &Vec<Entry>, key: &str) -> (r: Option<usize>)
    ensures
        match key_index(entries_model(entries@), key@) {
            Some(i) => r == Some(i as usize),
            None => r is None,
        },
        r matches Some(i) ==> is_first_key(entries_model(entries@), key@, i as int),
{
    broadcast use lemma_entries_model;

    let k = key.to_owned();
    let ghost es = entries_model(entries@);
    proof {
        lemma_entries_model(entries@);
    }
    let mut i: usize = 0;
    while i < entries.len()
        invariant
            0 <= i <= entries.len(),
            k@ == key@,
            es == entries_model(entries@),
            es.len() == entries@.len(),
            forall|j: int| 0 <= j < entries@.len() ==> es[j] == entry_model(entries@[j]),
            forall|j: int| 0 <= j < i ==> es[j].key != key@,
        decreases entries.len() - i,
    {
        if entries[i].key == k {
            proof {
                lemma_key_index(es, key@, i as int);
            }
            return Some(i);
        }
        i = i + 1;
    }
    None
}

/// The value of the first entry of `entries` whose key is `key`.
fn find<'s>(entries: &'s [Entry], key: &str) -> (r: Option<&'s Value>)
    ensures
        match key_index(entries_model(entries@), key@) {
            Some(i) => r == Some(&entries@[i].value),
            None => r is None,
        },
{
    broadcast use lemma_entries_model;

    let k = key.to_owned();
    let ghost es = entries_model(entries@);
    proof {
        lemma_entries_model(entries@);
    }
    let mut i: usize = 0;
    while i < entries.len()
        invariant
            0 <= i <= entries@.len(),
            k@ == key@,
            es == entries_model(entries@),
            es.len() == entries@.len(),
            forall|j: int| 0 <= j < entries@.len() ==> es[j] == entry_model(entries@[j]),
            forall|j: int| 0 <= j < i ==> es[j].key != key@,
        decreases entries@.len() - i,
    {
        if entries[i].key == k {
            proof {
                lemma_key_index(es, key@, i as int);
            }
            return Some(&entries[i].value);
        }
        i = i + 1;
    }
    None
}

/// The position of the first section of `sections` named `name`.
fn find_section(sections: &Vec<Section>, name: &str) -> (r: Option<usize>)
    ensures
        match section_index(sections_model(sections@), name@) {
            Some(i) => r == Some(i as usize),
            None => r is None,
        },
        r matches Some(i) ==> is_first_section(sections_model(sections@), name@, i as int),
{
    let k = name.to_owned();
    let ghost ss = sections_model(sections@);
    let mut i: usize = 0;
    while i < sections.len()
        invariant
            0 <= i <= sections.len(),
            k@ == name@,
            ss == sections_model(sections@),
            forall|j: int| 0 <= j < i ==> ss[j].name != name@,
        decreases sections.len() - i,
    {
        if sections[i].name == k {
            proof {
                lemma_section_index(ss, name@, i as int);
            }
            return Some(i);
        }
        i = i + 1;
    }
    None
}

/// `str::parse` followed by `Result::ok`: the value that `T::from_str` makes
/// of `s`, or `None` when it fails. Nothing is stated of the result, which
/// depends on `T`'s implementation. The error type `T::Err` cannot be named
/// in verified code, so the conversion to `Option` is made here.
#[verifier::external_body]
fn parse_text<T: core::str::FromStr>(s: &str) -> Option<T> {
    s.parse::<T>().ok()
}

/// `r` is what `str::parse::<T>`, turned into an `Option`, can give for a
/// text whose characters are `t`.
pub closed spec fn parse_outcome<T: core::str::FromStr>(t: Seq<char>, r: Option<T>) -> bool {
    exists|s: &str| s@ == t && call_ensures(parse_text::<T>, (s,), r)
}

impl From<String> for Value {
    fn from(s: String) -> (v: Value) {
        Value::Str(s)
    }
}

impl vstd::std_specs::convert::FromSpecImpl<String> for Value {
    open spec fn obeys_from_spec() -> bool {
        true
    }

    open spec fn from_spec(s: String) -> Value {
        Value::Str(s)
    }
}

/// A text value holding the characters of `s`. A spec function cannot make
/// a `String`, so `from` states its result in its own `ensures` and
/// `from_spec` is not relied on.
impl<'a> From<&'a str> for Value {
    fn from(s: &'a str) -> (v: Value)
        ensures
            v@ == ValueModel::Text(s@),
    {
        Value::Str(s.to_owned())
    }
}

impl<'a> vstd::std_specs::convert::FromSpecImpl<&'a str> for Value {
    open spec fn obeys_from_spec() -> bool {
        false
    }

    open spec fn from_spec(s: &'a str) -> Value {
        choose|v: Value| v@ == ValueModel::Text(s@)
    }
}

impl From<Vec<Entry>> for Value {
    fn from(m: Vec<Entry>) -> (v: Value) {
        Value::Nested(m)
    }
}

impl vstd::std_specs::convert::FromSpecImpl<Vec<Entry>> for Value {
    open spec fn obeys_from_spec() -> bool {
        true
    }

    open spec fn from_spec(m: Vec<Entry>) -> Value {
        Value::Nested(m)
    }
}

impl Value {
    /// A text value holding `s`.
    pub fn text(s: &str) -> (v: Value)
        ensures
            v@ == ValueModel::Text(s@),
    {
        Value::Str(s.to_owned())
    }

    /// The text of a plain value; `None` for a nested map.
    pub fn as_str(&self) -> (r: Option<&str>)
        ensures
            match self@ {
                ValueModel::Text(t) => r is Some && r->0@ == t,
                ValueModel::Nested(_) => r is None,
            },
    {
        match self {
            Value::Str(s) => Some(s.as_str()),
            Value::Nested(_) => None,
        }
    }

    /// The entries of a nested map; `None` for plain text.
    pub fn as_map(&self) -> (r: Option<&[Entry]>)
        ensures
            match self@ {
                ValueModel::Text(_) => r is None,
                ValueModel::Nested(m) => r is Some && entries_model(r->0@) == m,
            },
    {
        match self {
            Value::Nested(m) => Some(m.as_slice()),
            Value::Str(_) => None,
        }
    }

    /// `Some(true)` for the text `true`, `Some(false)` for `false`, else `None`.
    pub fn as_bool(&self) -> (r: Option<bool>)
        ensures
            r == (match self@ {
                ValueModel::Text(t) => if t == "true"@ {
                    Some(true)
                } else if t == "false"@ {
                    Some(false)
                } else {
                    None
                },
                ValueModel::Nested(_) => None,
            }),
    {
        match self {
            Value::Str(s) => {
                let v = crate::text::chars_of(s.as_str());
                if crate::text::range_eq(&v, 0, v.len(), "true") {
                    assert(v@.subrange(0, v@.len() as int) =~= v@);
                    Some(true)
                } else if crate::text::range_eq(&v, 0, v.len(), "false") {
                    assert(v@.subrange(0, v@.len() as int) =~= v@);
                    Some(false)
                } else {
                    assert(v@.subrange(0, v@.len() as int) =~= v@);
                    None
                }
            },
            Value::Nested(_) => None,
        }
    }

    /// The value under `key` inside a nested map (the first such entry);
    /// `None` for plain text or a missing key.
    pub fn get(&self, key: &str) -> (r: Option<&Value>)
        ensures
            match self@ {
                ValueModel::Text(_) => r is None,
                ValueModel::Nested(m) => match key_index(m, key@) {
                    Some(i) => r is Some && r->0@ == m[i].value,
                    None => r is None,
                },
            },
    {
        broadcast use lemma_entries_model;

        match self {
            Value::Nested(m) => find(m.as_slice(), key),
            Value::Str(_) => None,
        }
    }

    /// The text converted with `T`'s `FromStr`: for text, exactly what
    /// `str::parse::<T>` gives for it (`None` when that fails); `None` for a
    /// nested map.
    pub fn parse<T: core::str::FromStr>(&self) -> (r: Option<T>)
        ensures
            self@ is Nested ==> r is None,
            self@ matches ValueModel::Text(t) ==> parse_outcome(t, r),
    {
        match self.as_str() {
            Some(s) => parse_text(s),
            None => None,
        }
    }

    /// The same value, holding only data of its own.
    pub fn into_owned(self) -> (r: Value)
        ensures
            r@ == self@,
    {
        self
    }
}

pub broadcast proof fn lemma_entries_model_push(es: Seq<Entry>, e: Entry)
    ensures
        #[trigger] entries_model(es.push(e)) == entries_model(es).push(entry_model(e)),
{
    lemma_entries_model(es);
    lemma_entries_model(es.push(e));
    assert(entries_model(es.push(e)) =~= entries_model(es).push(entry_model(e)));
}

pub broadcast proof fn lemma_entries_model_update(es: Seq<Entry>, i: int, e: Entry)
    requires
        0 <= i < es.len(),
    ensures
        #[trigger] entries_model(es.update(i, e)) == entries_model(es).update(i, entry_model(e)),
{
    lemma_entries_model(es);
    lemma_entries_model(es.update(i, e));
    assert(entries_model(es.update(i, e)) =~= entries_model(es).update(i, entry_model(e)));
}

pub broadcast proof fn lemma_entries_model_remove(es: Seq<Entry>, i: int)
    requires
        0 <= i < es.len(),
    ensures
        #[trigger] entries_model(es.remove(i)) == entries_model(es).remove(i),
{
    lemma_entries_model(es);
    lemma_entries_model(es.remove(i));
    assert(entries_model(es.remove(i)) =~= entries_model(es).remove(i));
}

pub broadcast proof fn lemma_sections_model_update(ss: Seq<Section>, i: int, s: Section)
    requires
        0 <= i < ss.len(),
    ensures
        #[trigger] sections_model(ss.update(i, s)) == sections_model(ss).update(i, s@),
{
    assert(sections_model(ss.update(i, s)) =~= sections_model(ss).update(i, s@));
}

pub broadcast proof fn lemma_sections_model_push(ss: Seq<Section>, s: Section)
    ensures
        #[trigger] sections_model(ss.push(s)) == sections_model(ss).push(s@),
{
    assert(sections_model(ss.push(s)) =~= sections_model(ss).push(s@));
}

pub broadcast proof fn lemma_meta_model_push(ms: Seq<(String, String)>, m: (String, String))
    ensures
        #[trigger] meta_model(ms.push(m)) == meta_model(ms).push((m.0@, m.1@)),
{
    assert(meta_model(ms.push(m)) =~= meta_model(ms).push((m.0@, m.1@)));
}

pub broadcast proof fn lemma_push_update<A>(s: Seq<A>, a: A, b: A)
    ensures
        #[trigger] s.push(a).update(s.len() as int, b) == s.push(b),
{
    assert(s.push(a).update(s.len() as int, b) =~= s.push(b));
}

impl Entry {
    /// An entry with the given key and value.
    pub fn new(key: &str, value: Value) -> (e: Entry)
        ensures
            e@ == (EntryModel { key: key@, value: value@ }),
    {
        Entry { key: key.to_owned(), value }
    }

    /// The same entry, holding only data of its own.
    pub fn into_owned(self) -> (r: Entry)
        ensures
            r@ == self@,
    {
        self
    }
}

impl Section {
    /// An empty block called `name`.
    pub fn new(name: &str) -> (s: Section)
        ensures
            s@ == (SectionModel { name: name@, entries: Seq::empty() }),
    {
        proof {
            lemma_entries_model(Seq::<Entry>::empty());
        }
        Section { name: name.to_owned(), entries: Vec::new() }
    }

    /// The value of the first entry whose key is `key`.
    pub fn get(&self, key: &str) -> (r: Option<&Value>)
        ensures
            match key_index(self@.entries, key@) {
                Some(i) => r is Some && r->0@ == self@.entries[i].value,
                None => r is None,
            },
    {
        proof {
            lemma_entries_model(self.entries@);
        }
        find(self.entries.as_slice(), key)
    }

    /// The text of the first entry whose key is `key`; `None` when there is
    /// no such entry or its value is a nested map.
    pub fn get_str(&self, key: &str) -> (r: Option<&str>)
        ensures
            match lookup(self@.entries, key@) {
                Some(ValueModel::Text(t)) => r is Some && r->0@ == t,
                _ => r is None,
            },
    {
        match self.get(key) {
            Some(v) => v.as_str(),
            None => None,
        }
    }

    /// Mutable access to the value of the first entry whose key is `key`.
    pub fn get_mut(&mut self, key: &str) -> (r: Option<&mut Value>)
        ensures
            match key_index(old(self)@.entries, key@) {
                Some(i) => {
                    &&& r is Some
                    &&& (*r->0)@ == old(self)@.entries[i].value
                    &&& final(self)@ == (SectionModel {
                        name: old(self)@.name,
                        entries: old(self)@.entries.update(
                            i,
                            EntryModel { key: old(self)@.entries[i].key, value: (*final(r->0))@ },
                        ),
                    })
                },
                None => r is None && final(self)@ == old(self)@,
            },
    {
        broadcast use lemma_entries_model_update;

        proof {
            lemma_entries_model(self.entries@);
        }
        match find_index(&self.entries, key) {
            Some(i) => Some(&mut self.entries[i].value),
            None => None,
        }
    }

    /// Replaces the value of the first entry whose key is `key`, keeping its
    /// position, or appends a new entry when there is none.
    pub fn set(&mut self, key: &str, value: Value)
        ensures
            final(self)@ == (SectionModel {
                name: old(self)@.name,
                entries: set_entries(old(self)@.entries, key@, value@),
            }),
    {
        proof {
            lemma_entries_model(self.entries@);
        }
        broadcast use lemma_entries_model_update, lemma_entries_model_push;

        match find_index(&self.entries, key) {
            Some(i) => {
                self.entries[i].value = value;
            },
            None => {
                self.entries.push(Entry { key: key.to_owned(), value });
            },
        }
    }

    /// Appends an entry without looking for an existing key.
    pub fn push(&mut self, key: &str, value: Value)
        ensures
            final(self)@ == (SectionModel {
                name: old(self)@.name,
                entries: old(self)@.entries.push(EntryModel { key: key@, value: value@ }),
            }),
    {
        let ghost old_entries = self.entries@;
        let e = Entry::new(key, value);
        self.entries.push(e);
        proof {
            lemma_entries_model_push(old_entries, e);
        }
    }

    /// Removes the first entry whose key is `key` and returns its value.
    pub fn remove(&mut self, key: &str) -> (r: Option<Value>)
        ensures
            match key_index(old(self)@.entries, key@) {
                Some(i) => {
                    &&& r is Some
                    &&& r->0@ == old(self)@.entries[i].value
                    &&& final(self)@ == (SectionModel {
                        name: old(self)@.name,
                        entries: old(self)@.entries.remove(i),
                    })
                },
                None => r is None && final(self)@ == old(self)@,
            },
            final(self)@ == (SectionModel {
                name: old(self)@.name,
                entries: remove_entries(old(self)@.entries, key@),
            }),
    {
        proof {
            lemma_entries_model(self.entries@);
        }
        match find_index(&self.entries, key) {
            Some(i) => {
                let ghost old_entries = self.entries@;
                let e = self.entries.remove(i);
                proof {
                    lemma_entries_model_remove(old_entries, i as int);
                }
                Some(e.value)
            },
            None => None,
        }
    }

    /// The same block, holding only data of its own.
    pub fn into_owned(self) -> (r: Section)
        ensures
            r@ == self@,
    {
        self
    }
}

/// A copy of `v`, nested maps included.
fn clone_value(v: &Value) -> (r: Value)
    ensures
        r@ == v@,
    decreases v,
{
    match v {
        Value::Str(s) => Value::Str(s.clone()),
        Value::Nested(m) => {
            assert(decreases_to!(v => m));
            Value::Nested(clone_entries(m))
        },
    }
}

/// A copy of `entries`, nested maps included.
fn clone_entries(entries: &Vec<Entry>) -> (r: Vec<Entry>)
    ensures
        entries_model(r@) == entries_model(entries@),
    decreases entries,
{
    broadcast use lemma_entries_model_push;

    let mut r: Vec<Entry> = Vec::new();
    proof {
        lemma_entries_model(entries@);
        lemma_entries_model(r@);
        assert(entries_model(r@) =~= entries_model(entries@).take(0));
    }
    let mut i: usize = 0;
    while i < entries.len()
        invariant
            0 <= i <= entries.len(),
            entries_model(r@) == entries_model(entries@).take(i as int),
            entries_model(entries@).len() == entries@.len(),
            forall|j: int|
                0 <= j < entries@.len() ==> entries_model(entries@)[j] == entry_model(entries@[j]),
        decreases entries.len() - i,
    {
        let e = &entries[i];
        assert(decreases_to!(entries => entries@[i as int].value));
        let value = clone_value(&e.value);
        let c = Entry { key: e.key.clone(), value };
        let ghost before = r@;
        r.push(c);
        proof {
            lemma_entries_model_push(before, c);
            assert(entries_model(entries@).take(i + 1) =~= entries_model(entries@).take(
                i as int,
            ).push(entry_model(c)));
        }
        i = i + 1;
    }
    assert(entries_model(entries@).take(entries.len() as int) =~= entries_model(entries@));
    r
}

impl Clone for Value {
    /// A copy of this value, nested maps included.
    fn clone(&self) -> (r: Value)
        ensures
            r@ == self@,
    {
        clone_value(self)
    }
}

impl Clone for Entry {
    /// A copy of this entry, nested maps included.
    fn clone(&self) -> (r: Entry)
        ensures
            r@ == self@,
    {
        Entry { key: self.key.clone(), value: clone_value(&self.value) }
    }
}

impl Clone for Section {
    /// A copy of this block.
    fn clone(&self) -> (r: Section)
        ensures
            r@ == self@,
    {
        Section { name: self.name.clone(), entries: clone_entries(&self.entries) }
    }
}

impl Clone for Document {
    /// A copy of this document.
    fn clone(&self) -> (r: Document)
        ensures
            r@ == self@,
    {
        broadcast use lemma_meta_model_push, lemma_sections_model_push;

        let mut meta: Vec<(String, String)> = Vec::new();
        let mut i: usize = 0;
        while i < self.meta.len()
            invariant
                0 <= i <= self.meta.len(),
                meta_model(meta@) == meta_model(self.meta@).take(i as int),
            decreases self.meta.len() - i,
        {
            let p = (self.meta[i].0.clone(), self.meta[i].1.clone());
            let ghost before = meta@;
            meta.push(p);
            assert(meta_model(meta@) == meta_model(before).push((p.0@, p.1@)));
            assert(meta_model(meta@) =~= meta_model(self.meta@).take(i + 1));
            i = i + 1;
        }
        let mut sections: Vec<Section> = Vec::new();
        let mut j: usize = 0;
        while j < self.sections.len()
            invariant
                0 <= j <= self.sections.len(),
                meta_model(meta@) == meta_model(self.meta@),
                sections_model(sections@) == sections_model(self.sections@).take(j as int),
            decreases self.sections.len() - j,
        {
            let c = self.sections[j].clone();
            let ghost before = sections@;
            sections.push(c);
            assert(sections_model(sections@) == sections_model(before).push(c@));
            assert(sections_model(sections@) =~= sections_model(self.sections@).take(j + 1));
            j = j + 1;
        }
        assert(meta_model(self.meta@).take(self.meta.len() as int) =~= meta_model(self.meta@));
        assert(sections_model(self.sections@).take(self.sections.len() as int) =~= sections_model(
            self.sections@,
        ));
        Document { meta, sections }
    }
}

impl Default for Section {
    /// A block with an empty name and no entries.
    fn default() -> (s: Section)
        ensures
            s@ == (SectionModel { name: Seq::empty(), entries: Seq::empty() }),
    {
        proof {
            reveal_strlit("");
        }
        let s = Section::new("");
        assert(""@ =~= Seq::<char>::empty());
        s
    }
}

impl Default for Document {
    /// An empty document.
    fn default() -> (d: Document)
        ensures
            d@ == (DocumentModel { meta: Seq::empty(), sections: Seq::empty() }),
    {
        Document::new()
    }
}

impl Document {
    /// An empty document.
    pub fn new() -> (d: Document)
        ensures
            d@ == (DocumentModel { meta: Seq::empty(), sections: Seq::empty() }),
    {
        let d = Document { meta: Vec::new(), sections: Vec::new() };
        assert(d@.meta =~= Seq::empty());
        assert(d@.sections =~= Seq::empty());
        d
    }

    /// The first block called `name`.
    pub fn section(&self, name: &str) -> (r: Option<&Section>)
        ensures
            match section_index(self@.sections, name@) {
                Some(i) => r is Some && r->0@ == self@.sections[i],
                None => r is None,
            },
    {
        match find_section(&self.sections, name) {
            Some(i) => Some(&self.sections[i]),
            None => None,
        }
    }

    /// Mutable access to the first block called `name`.
    pub fn section_mut(&mut self, name: &str) -> (r: Option<&mut Section>)
        ensures
            match section_index(old(self)@.sections, name@) {
                Some(i) => {
                    &&& r is Some
                    &&& (*r->0)@ == old(self)@.sections[i]
                    &&& final(self)@ == (DocumentModel {
                        meta: old(self)@.meta,
                        sections: old(self)@.sections.update(i, (*final(r->0))@),
                    })
                },
                None => r is None && final(self)@ == old(self)@,
            },
    {
        broadcast use lemma_sections_model_update;

        match find_section(&self.sections, name) {
            Some(i) => Some(&mut self.sections[i]),
            None => None,
        }
    }

    /// The first block called `name`, appended empty at the end when there is none.
    pub fn section_or_insert(&mut self, name: &str) -> (r: &mut Section)
        ensures
            match section_index(old(self)@.sections, name@) {
                Some(i) => {
                    &&& (*r)@ == old(self)@.sections[i]
                    &&& final(self)@ == (DocumentModel {
                        meta: old(self)@.meta,
                        sections: old(self)@.sections.update(i, (*final(r))@),
                    })
                },
                None => {
                    &&& (*r)@ == (SectionModel { name: name@, entries: Seq::empty() })
                    &&& final(self)@ == (DocumentModel {
                        meta: old(self)@.meta,
                        sections: old(self)@.sections.push((*final(r))@),
                    })
                },
            },
    {
        broadcast use lemma_sections_model_update, lemma_sections_model_push, lemma_push_update;

        let idx = match find_section(&self.sections, name) {
            Some(i) => i,
            None => {
                self.sections.push(Section::new(name));
                self.sections.len() - 1
            },
        };
        &mut self.sections[idx]
    }

    /// The value under `key` in the first block called `section`.
    pub fn get(&self, section: &str, key: &str) -> (r: Option<&Value>)
        ensures
            match section_index(self@.sections, section@) {
                Some(i) => match key_index(self@.sections[i].entries, key@) {
                    Some(j) => r is Some && r->0@ == self@.sections[i].entries[j].value,
                    None => r is None,
                },
                None => r is None,
            },
    {
        match self.section(section) {
            Some(s) => s.get(key),
            None => None,
        }
    }

    /// The same document, holding only data of its own.
    pub fn into_owned(self) -> (r: Document)
        ensures
            r@ == self@,
    {
        self
    }
}

} // verus!
