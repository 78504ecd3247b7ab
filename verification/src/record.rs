//! Records: ordered mappings from field names to string values.
//!
//! A record keeps its fields in the order in which their names first came,
//! and holds each name once. Its model is the sequence of its
//! `(name, value)` pairs, both as sequences of characters.

use vstd::prelude::*;

verus! {

/// The model of a record: its `(name, value)` pairs in order.
pub type Fields = Seq<(Seq<char>, Seq<char>)>;

/// No name stands twice among the fields.
pub open spec fn distinct_keys(fields: Fields) -> bool {
    forall|i: int, j: int| 0 <= i < j < fields.len() ==> fields[i].0 != fields[j].0
}

/// The first position at which `key` names a field, or the number of fields
/// where none does.
pub open spec fn key_index(fields: Fields, key: Seq<char>) -> int
    decreases fields.len(),
{
    if fields.len() == 0 {
        0
    } else if fields[0].0 == key {
        0
    } else {
        1 + key_index(fields.subrange(1, fields.len() as int), key)
    }
}

/// Whether `key` names a field.
pub open spec fn has_key(fields: Fields, key: Seq<char>) -> bool {
    key_index(fields, key) < fields.len()
}

/// The value under `key`, if it names a field.
pub open spec fn lookup(fields: Fields, key: Seq<char>) -> Option<Seq<char>> {
    if has_key(fields, key) {
        Some(fields[key_index(fields, key)].1)
    } else {
        None
    }
}

/// The fields after `value` is stored under `key`: in place where the key is
/// known, at the end where it is new.
pub open spec fn put(fields: Fields, key: Seq<char>, value: Seq<char>) -> Fields {
    if has_key(fields, key) {
        fields.update(key_index(fields, key), (key, value))
    } else {
        fields.push((key, value))
    }
}

/// What `key_index` finds: a position within bounds that holds the key, with
/// no earlier field of that name.
pub proof fn lemma_key_index(fields: Fields, key: Seq<char>)
    ensures
        0 <= key_index(fields, key) <= fields.len(),
        has_key(fields, key) ==> fields[key_index(fields, key)].0 == key,
        forall|i: int| 0 <= i < key_index(fields, key) ==> fields[i].0 != key,
    decreases fields.len(),
{
    if fields.len() == 0 {
    } else if fields[0].0 == key {
    } else {
        let rest = fields.subrange(1, fields.len() as int);
        lemma_key_index(rest, key);
        assert forall|i: int| 0 <= i < key_index(fields, key) implies fields[i].0 != key by {
            if i > 0 {
                assert(rest[i - 1] == fields[i]);
            }
        }
        if has_key(fields, key) {
            assert(rest[key_index(rest, key)] == fields[key_index(fields, key)]);
        }
    }
}

/// A field of the given name is found at its position when names are distinct.
pub proof fn lemma_key_index_at(fields: Fields, i: int)
    requires
        distinct_keys(fields),
        0 <= i < fields.len(),
    ensures
        key_index(fields, fields[i].0) == i,
{
    lemma_key_index(fields, fields[i].0);
    let k = key_index(fields, fields[i].0);
    if k < i {
    } else if k > i {
    }
}

/// Storing keeps the names distinct, and the stored value is then found.
pub proof fn lemma_put(fields: Fields, key: Seq<char>, value: Seq<char>)
    requires
        distinct_keys(fields),
    ensures
        distinct_keys(put(fields, key, value)),
        lookup(put(fields, key, value), key) == Some(value),
        has_key(put(fields, key, value), key),
        forall|other: Seq<char>|
            other != key ==> lookup(put(fields, key, value), other) == lookup(fields, other),
{
    let after = put(fields, key, value);
    lemma_key_index(fields, key);
    let k = key_index(fields, key);
    assert(distinct_keys(after)) by {
        assert forall|i: int, j: int| 0 <= i < j < after.len() implies after[i].0 != after[j].0 by {
            if has_key(fields, key) {
                assert(fields[k].0 == key);
                assert(after[i].0 == fields[i].0);
                assert(after[j].0 == fields[j].0);
            } else {
                if j == fields.len() {
                    assert(after[i] == fields[i]);
                }
            }
        }
    }
    assert(after[k].0 == key);
    lemma_key_index_at(after, k);
    assert forall|other: Seq<char>| other != key implies lookup(after, other) == lookup(
        fields,
        other,
    ) by {
        lemma_key_index(fields, other);
        lemma_key_index(after, other);
        let a = key_index(fields, other);
        let b = key_index(after, other);
        if a < fields.len() {
            assert(after[a].0 == other);
            if b < a {
                assert(fields[b].0 == after[b].0);
            }
            assert(a == b);
        } else {
            if b < after.len() {
                if b < fields.len() {
                    assert(fields[b].0 == after[b].0);
                }
            }
        }
    }
}

/// A record: field names with their values, each name once, in the order in
/// which the names first came.
#[derive(Debug, Clone, PartialEq, Eq)]
pub struct Record {
    fields: Vec<(String, String)>,
}

/// A person is a record of the personnel table.
pub type Person = Record;

impl View for Record {
    type V = Fields;

    closed spec fn view(&self) -> Fields {
        Seq::new(self.fields@.len(), |i: int| (self.fields@[i].0@, self.fields@[i].1@))
    }
}

impl Record {
    /// Well-formedness: the record holds each name once.
    pub open spec fn wf(&self) -> bool {
        distinct_keys(self@)
    }

    /// The record without fields.
    pub fn new() -> (r: Record)
        ensures
            r@ == Fields::empty(),
            r.wf(),
    {
        let r = Record { fields: Vec::new() };
        assert(r@ == Fields::empty());
        r
    }

    /// The number of fields.
    pub fn len(&self) -> (n: usize)
        ensures
            n == self@.len(),
    {
        self.fields.len()
    }

    /// The name of the field at position `i`.
    pub fn key(&self, i: usize) -> (k: &str)
        requires
            i < self@.len(),
        ensures
            k@ == self@[i as int].0,
    {
        self.fields[i].0.as_str()
    }

    /// The value of the field at position `i`.
    pub fn value(&self, i: usize) -> (v: &str)
        requires
            i < self@.len(),
        ensures
            v@ == self@[i as int].1,
    {
        self.fields[i].1.as_str()
    }

    /// The position of the field named `key`, or the number of fields where
    /// there is none.
    pub fn position(&self, key: &str) -> (i: usize)
        ensures
            i == key_index(self@, key@),
    {
        let wanted = key.to_owned();
        let mut i: usize = 0;
        while i < self.fields.len()
            invariant
                i <= self.fields.len(),
                wanted@ == key@,
                forall|j: int| 0 <= j < i ==> self@[j].0 != key@,
            decreases self.fields.len() - i,
        {
            if self.fields[i].0 == wanted {
                proof {
                    lemma_key_index(self@, key@);
                    assert(self@[i as int].0 == key@);
                }
                return i;
            }
            proof {
                assert(self@[i as int].0 == self.fields@[i as int].0@);
            }
            i += 1;
        }
        proof {
            lemma_key_index(self@, key@);
        }
        i
    }

    /// The value under `key`, where the record has such a field.
    pub fn get(&self, key: &str) -> (v: Option<&str>)
        ensures
            v is Some == has_key(self@, key@),
            v matches Some(s) ==> lookup(self@, key@) == Some(s@),
    {
        let i = self.position(key);
        if i < self.fields.len() {
            Some(self.fields[i].1.as_str())
        } else {
            None
        }
    }

    /// Stores `value` under `key`: over the old value where the key is known,
    /// as a new last field where it is not.
    pub fn insert(&mut self, key: &str, value: &str)
        requires
            old(self).wf(),
        ensures
            final(self)@ == put(old(self)@, key@, value@),
            final(self).wf(),
    {
        let i = self.position(key);
        proof {
            lemma_put(self@, key@, value@);
        }
        let ghost before = self@;
        if i < self.fields.len() {
            self.fields.set(i, (key.to_owned(), value.to_owned()));
        } else {
            self.fields.push((key.to_owned(), value.to_owned()));
        }
        assert(self@ == put(before, key@, value@));
    }
}

} // verus!
