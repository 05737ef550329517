use vstd::prelude::*;

verus! {

/// A parsed value: a scalar, a bare list, a keyed object, or an anonymous `{ ... }` object
/// standing as an item of a list.
#[derive(Debug, PartialEq, Eq)]
pub enum Value {
    Scalar(String),
    Array(Vec<Value>),
    Object(ObjectNode),
    AnonymousObject(ObjectNode),
}

/// The entries of one `{ ... }` scope, in source order.
#[derive(Debug, PartialEq, Eq)]
pub struct ObjectNode {
    pub entries: Vec<Entry>,
}

/// One `key = value` entry together with its metadata.
#[derive(Debug, PartialEq, Eq)]
pub struct Entry {
    pub key: String,
    pub value: Value,
    pub metadata: EntryMetadata,
}

/// What the parser records beside an entry: its rank among the earlier entries of the same
/// scope with the same key, the `$$HEX` suffix that names that rank, and whether the value
/// was read out of a quoted script string.
#[derive(Debug, PartialEq, Eq)]
pub struct EntryMetadata {
    pub duplicate_index: Option<usize>,
    pub duplicate_suffix: Option<String>,
    pub nested_quoted: bool,
}

/// The mathematical model of a value.
pub enum SValue {
    Scalar(Seq<char>),
    Array(Seq<SValue>),
    Object(Seq<SEntry>),
    AnonymousObject(Seq<SEntry>),
}

/// The mathematical model of entry metadata.
pub struct SMeta {
    pub duplicate_index: Option<usize>,
    pub duplicate_suffix: Option<Seq<char>>,
    pub nested_quoted: bool,
}

/// The mathematical model of an entry.
pub struct SEntry {
    pub key: Seq<char>,
    pub value: SValue,
    pub meta: SMeta,
}

/// Metadata with nothing recorded.
pub open spec fn plain_meta() -> SMeta {
    SMeta { duplicate_index: None, duplicate_suffix: None, nested_quoted: false }
}

pub open spec fn view_value(v: Value) -> SValue
    decreases v,
{
    match v {
        Value::Scalar(s) => SValue::Scalar(s@),
        Value::Array(items) => SValue::Array(view_values(items@)),
        Value::Object(o) => SValue::Object(view_entries(o.entries@)),
        Value::AnonymousObject(o) => SValue::AnonymousObject(view_entries(o.entries@)),
    }
}

pub open spec fn view_values(s: Seq<Value>) -> Seq<SValue>
    decreases s,
{
    if s.len() == 0 {
        Seq::empty()
    } else {
        view_values(s.drop_last()).push(view_value(s.last()))
    }
}

pub open spec fn view_entries(s: Seq<Entry>) -> Seq<SEntry>
    decreases s,
{
    if s.len() == 0 {
        Seq::empty()
    } else {
        view_entries(s.drop_last()).push(view_entry(s.last()))
    }
}

pub open spec fn view_entry(e: Entry) -> SEntry
    decreases e,
{
    SEntry { key: e.key@, value: view_value(e.value), meta: view_meta(e.metadata) }
}

pub open spec fn view_meta(m: EntryMetadata) -> SMeta {
    SMeta {
        duplicate_index: m.duplicate_index,
        duplicate_suffix: match m.duplicate_suffix {
            Some(s) => Some(s@),
            None => None,
        },
        nested_quoted: m.nested_quoted,
    }
}

pub proof fn lemma_view_values_len(s: Seq<Value>)
    ensures
        view_values(s).len() == s.len(),
    decreases s.len(),
{
    if s.len() > 0 {
        lemma_view_values_len(s.drop_last());
    }
}

pub proof fn lemma_view_values_index(s: Seq<Value>, i: int)
    requires
        0 <= i < s.len(),
    ensures
        view_values(s).len() == s.len(),
        view_values(s)[i] == view_value(s[i]),
    decreases s.len(),
{
    lemma_view_values_len(s);
    if i < s.len() - 1 {
        lemma_view_values_index(s.drop_last(), i);
    }
}

pub proof fn lemma_view_values_push(s: Seq<Value>, v: Value)
    ensures
        view_values(s.push(v)) == view_values(s).push(view_value(v)),
{
    assert(s.push(v).drop_last() =~= s);
}

pub proof fn lemma_view_values_map(s: Seq<Value>)
    ensures
        view_values(s) == s.map_values(|v: Value| view_value(v)),
    decreases s.len(),
{
    if s.len() > 0 {
        lemma_view_values_map(s.drop_last());
        assert(s.map_values(|v: Value| view_value(v)) =~= s.drop_last().map_values(
            |v: Value| view_value(v),
        ).push(view_value(s.last())));
    } else {
        assert(s.map_values(|v: Value| view_value(v)) =~= Seq::<SValue>::empty());
    }
}

pub proof fn lemma_view_entries_map(s: Seq<Entry>)
    ensures
        view_entries(s) == s.map_values(|e: Entry| view_entry(e)),
    decreases s.len(),
{
    if s.len() > 0 {
        lemma_view_entries_map(s.drop_last());
        assert(s.map_values(|e: Entry| view_entry(e)) =~= s.drop_last().map_values(
            |e: Entry| view_entry(e),
        ).push(view_entry(s.last())));
    } else {
        assert(s.map_values(|e: Entry| view_entry(e)) =~= Seq::<SEntry>::empty());
    }
}

pub proof fn lemma_view_entries_len(s: Seq<Entry>)
    ensures
        view_entries(s).len() == s.len(),
    decreases s.len(),
{
    if s.len() > 0 {
        lemma_view_entries_len(s.drop_last());
    }
}

pub proof fn lemma_view_entries_index(s: Seq<Entry>, i: int)
    requires
        0 <= i < s.len(),
    ensures
        view_entries(s).len() == s.len(),
        view_entries(s)[i] == view_entry(s[i]),
    decreases s.len(),
{
    lemma_view_entries_len(s);
    if i < s.len() - 1 {
        lemma_view_entries_index(s.drop_last(), i);
    }
}

pub proof fn lemma_view_entries_push(s: Seq<Entry>, e: Entry)
    ensures
        view_entries(s.push(e)) == view_entries(s).push(view_entry(e)),
{
    assert(s.push(e).drop_last() =~= s);
}

impl Value {
    /// A copy of the value with the same model.
    pub fn deep_clone(&self) -> (r: Value)
        ensures
            view_value(r) == view_value(*self),
        decreases self,
    {
        match self {
            Value::Scalar(s) => Value::Scalar(s.clone()),
            Value::Array(items) => {
                let mut out: Vec<Value> = Vec::new();
                let mut i: usize = 0;
                while i < items.len()
                    invariant
                        i <= items.len(),
                        *self == Value::Array(*items),
                        view_values(out@) == view_values(items@.take(i as int)),
                    decreases items.len() - i,
                {
                    proof {
                        assert(decreases_to!(*self => self->Array_0));
                    }
                    let ghost prev = out@;
                    let c = items[i].deep_clone();
                    out.push(c);
                    proof {
                        lemma_view_values_push(prev, c);
                        assert(items@.take(i + 1).drop_last() =~= items@.take(i as int));
                    }
                    i += 1;
                }
                assert(items@.take(items.len() as int) =~= items@);
                Value::Array(out)
            },
            Value::Object(o) => {
                proof {
                    assert(decreases_to!(*self => self->Object_0));
                }
                Value::Object(o.deep_clone())
            },
            Value::AnonymousObject(o) => {
                proof {
                    assert(decreases_to!(*self => self->AnonymousObject_0));
                }
                Value::AnonymousObject(o.deep_clone())
            },
        }
    }
}

impl ObjectNode {
    /// A copy of the object with the same model.
    pub fn deep_clone(&self) -> (r: ObjectNode)
        ensures
            view_entries(r.entries@) == view_entries(self.entries@),
        decreases self,
    {
        let mut out: Vec<Entry> = Vec::new();
        let mut i: usize = 0;
        while i < self.entries.len()
            invariant
                i <= self.entries.len(),
                view_entries(out@) == view_entries(self.entries@.take(i as int)),
            decreases self.entries.len() - i,
        {
            proof {
                assert(decreases_to!(*self => self.entries));
            }
            let ghost prev = out@;
            let c = self.entries[i].deep_clone();
            out.push(c);
            proof {
                lemma_view_entries_push(prev, c);
                assert(self.entries@.take(i + 1).drop_last() =~= self.entries@.take(i as int));
            }
            i += 1;
        }
        assert(self.entries@.take(self.entries.len() as int) =~= self.entries@);
        ObjectNode { entries: out }
    }

    pub fn new(entries: Vec<Entry>) -> (r: Self)
        ensures
            r.entries == entries,
    {
        ObjectNode { entries }
    }

    pub fn entries(&self) -> (r: &[Entry])
        ensures
            r@ == self.entries@,
    {
        self.entries.as_slice()
    }

    pub fn push(&mut self, entry: Entry)
        ensures
            final(self).entries@ == old(self).entries@.push(entry),
    {
        self.entries.push(entry);
    }
}

impl Default for ObjectNode {
    fn default() -> (r: Self)
        ensures
            r.entries@.len() == 0,
    {
        ObjectNode { entries: Vec::new() }
    }
}

impl Entry {
    /// A copy of the entry with the same model.
    pub fn deep_clone(&self) -> (r: Entry)
        ensures
            view_entry(r) == view_entry(*self),
        decreases self,
    {
        proof {
            assert(decreases_to!(*self => self.value));
        }
        Entry {
            key: self.key.clone(),
            value: self.value.deep_clone(),
            metadata: self.metadata.copy(),
        }
    }

    /// An entry with no metadata recorded.
    pub fn new(key: &str, value: Value) -> (r: Self)
        ensures
            r.key@ == key@,
            r.value == value,
            view_meta(r.metadata) == plain_meta(),
    {
        Entry { key: key.to_owned(), value, metadata: EntryMetadata::default() }
    }

    pub fn with_metadata(key: &str, value: Value, metadata: EntryMetadata) -> (r: Self)
        ensures
            r.key@ == key@,
            r.value == value,
            r.metadata == metadata,
    {
        Entry { key: key.to_owned(), value, metadata }
    }

    pub fn key(&self) -> (r: &str)
        ensures
            r@ == self.key@,
    {
        self.key.as_str()
    }

    pub fn value(&self) -> (r: &Value)
        ensures
            *r == self.value,
    {
        &self.value
    }

    pub fn metadata(&self) -> (r: &EntryMetadata)
        ensures
            *r == self.metadata,
    {
        &self.metadata
    }

    pub fn metadata_mut(&mut self) -> (r: &mut EntryMetadata)
        ensures
            *r == old(self).metadata,
            final(self).metadata == *final(r),
            final(self).key == old(self).key,
            final(self).value == old(self).value,
    {
        &mut self.metadata
    }

    pub fn set_metadata(&mut self, metadata: EntryMetadata)
        ensures
            final(self).metadata == metadata,
            final(self).key == old(self).key,
            final(self).value == old(self).value,
    {
        self.metadata = metadata;
    }
}

impl EntryMetadata {
    /// A copy of the metadata with the same model.
    pub fn copy(&self) -> (r: EntryMetadata)
        ensures
            view_meta(r) == view_meta(*self),
    {
        EntryMetadata {
            duplicate_index: self.duplicate_index,
            duplicate_suffix: match &self.duplicate_suffix {
                Some(s) => Some(s.clone()),
                None => None,
            },
            nested_quoted: self.nested_quoted,
        }
    }
}

impl Default for EntryMetadata {
    fn default() -> (r: Self)
        ensures
            view_meta(r) == plain_meta(),
    {
        EntryMetadata { duplicate_index: None, duplicate_suffix: None, nested_quoted: false }
    }
}

impl Clone for Value {
    fn clone(&self) -> (r: Self)
        ensures
            view_value(r) == view_value(*self),
    {
        self.deep_clone()
    }
}

impl Clone for ObjectNode {
    fn clone(&self) -> (r: Self)
        ensures
            view_entries(r.entries@) == view_entries(self.entries@),
    {
        self.deep_clone()
    }
}

impl Clone for Entry {
    fn clone(&self) -> (r: Self)
        ensures
            view_entry(r) == view_entry(*self),
    {
        self.deep_clone()
    }
}

impl Clone for EntryMetadata {
    fn clone(&self) -> (r: Self)
        ensures
            view_meta(r) == view_meta(*self),
    {
        self.copy()
    }
}

} // verus!
