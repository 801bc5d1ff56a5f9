use vstd::prelude::*;

use crate::ternary::{FieldValue, Ternary};

verus! {

broadcast use vstd::string::to_string_from_display_ensures_for_str;

/// The value that a list of named fields gives a name: the value of the first
/// entry with that name.
pub open spec fn field_lookup(fields: Seq<(String, FieldValue)>, key: Seq<char>) -> Option<FieldValue>
    decreases fields.len(),
{
    if fields.len() == 0 {
        None
    } else if fields[0].0@ == key {
        Some(fields[0].1)
    } else {
        field_lookup(fields.drop_first(), key)
    }
}

/// The named fields of a list as a map from name to value.
pub open spec fn field_map(fields: Seq<(String, FieldValue)>) -> Map<Seq<char>, FieldValue> {
    Map::new(
        |k: Seq<char>| field_lookup(fields, k) is Some,
        |k: Seq<char>| field_lookup(fields, k).unwrap(),
    )
}

/// Looking a name up in a list skips a first entry with another name.
proof fn lemma_lookup_skip(fields: Seq<(String, FieldValue)>, i: int, key: Seq<char>)
    requires
        0 <= i < fields.len(),
        fields[i].0@ != key,
    ensures
        field_lookup(fields.skip(i), key) == field_lookup(fields.skip(i + 1), key),
{
    assert(fields.skip(i).drop_first() =~= fields.skip(i + 1));
}

/// Replacing the value of the first entry with a name gives that name the new
/// value and leaves every other name as it was.
proof fn lemma_lookup_update(
    fields: Seq<(String, FieldValue)>,
    i: int,
    entry: (String, FieldValue),
    key: Seq<char>,
)
    requires
        0 <= i < fields.len(),
        fields[i].0@ == entry.0@,
        forall|j: int| 0 <= j < i ==> fields[j].0@ != entry.0@,
    ensures
        field_lookup(fields.update(i, entry), key) == if key == entry.0@ {
            Some(entry.1)
        } else {
            field_lookup(fields, key)
        },
    decreases fields.len(),
{
    let u = fields.update(i, entry);
    if i > 0 {
        assert(u[0] == fields[0]);
        assert(u.drop_first() =~= fields.drop_first().update(i - 1, entry));
        lemma_lookup_update(fields.drop_first(), i - 1, entry, key);
    } else {
        assert(u[0] == entry);
        assert(u.drop_first() =~= fields.drop_first());
    }
}

/// Appending an entry whose name no entry has gives that name its value and
/// leaves every other name as it was.
proof fn lemma_lookup_push(fields: Seq<(String, FieldValue)>, entry: (String, FieldValue), key: Seq<char>)
    requires
        forall|j: int| 0 <= j < fields.len() ==> fields[j].0@ != entry.0@,
    ensures
        field_lookup(fields.push(entry), key) == if key == entry.0@ {
            Some(entry.1)
        } else {
            field_lookup(fields, key)
        },
    decreases fields.len(),
{
    let p = fields.push(entry);
    if fields.len() > 0 {
        assert(p[0] == fields[0]);
        assert(p.drop_first() =~= fields.drop_first().push(entry));
        lemma_lookup_push(fields.drop_first(), entry, key);
    } else {
        assert(p[0] == entry);
        assert(p.drop_first() =~= Seq::<(String, FieldValue)>::empty());
        assert(field_lookup(p.drop_first(), key) is None);
        assert(field_lookup(fields, key) is None);
    }
}

/// A row in a ternary table.
#[derive(Clone, Debug)]
pub struct Row {
    pub id: u64,
    pub fields: Vec<(String, FieldValue)>,
}

impl Row {
    /// The row's fields as a map from name to value.
    pub open spec fn field_values(&self) -> Map<Seq<char>, FieldValue> {
        field_map(self.fields@)
    }

    /// The value of a field, if the row has it.
    pub open spec fn field(&self, key: Seq<char>) -> Option<FieldValue> {
        field_lookup(self.fields@, key)
    }

    pub fn new(id: u64) -> (r: Self)
        ensures
            r.id == id,
            r.field_values() == Map::<Seq<char>, FieldValue>::empty(),
            forall|k: Seq<char>| r.field(k) is None,
    {
        let r = Row { id, fields: Vec::new() };
        assert(r.field_values() =~= Map::<Seq<char>, FieldValue>::empty());
        r
    }

    /// Index of the first entry named `key`, or the number of entries.
    fn position(&self, key: &String) -> (i: usize)
        ensures
            i <= self.fields@.len(),
            forall|j: int| 0 <= j < i ==> self.fields@[j].0@ != key@,
            i < self.fields@.len() ==> self.fields@[i as int].0@ == key@,
            field_lookup(self.fields@, key@) == field_lookup(self.fields@.skip(i as int), key@),
    {
        let mut i: usize = 0;
        assert(self.fields@.skip(0) =~= self.fields@);
        while i < self.fields.len()
            invariant
                i <= self.fields@.len(),
                forall|j: int| 0 <= j < i ==> self.fields@[j].0@ != key@,
                field_lookup(self.fields@, key@) == field_lookup(self.fields@.skip(i as int), key@),
            decreases self.fields@.len() - i,
        {
            if self.fields[i].0 == *key {
                return i;
            }
            proof {
                lemma_lookup_skip(self.fields@, i as int, key@);
            }
            i = i + 1;
        }
        i
    }

    pub fn set(&mut self, key: &str, value: FieldValue)
        ensures
            final(self).id == old(self).id,
            final(self).field_values() == old(self).field_values().insert(key@, value),
            final(self).fields@.len() == old(self).fields@.len() + if old(self).field(key@) is None {
                1int
            } else {
                0int
            },
            forall|k: Seq<char>|
                #[trigger] final(self).field(k) == if k == key@ {
                    Some(value)
                } else {
                    old(self).field(k)
                },
    {
        let k = key.to_string();
        let i = self.position(&k);
        let ghost old_fields = self.fields@;
        let ghost entry = (k, value);
        proof {
            if i < old_fields.len() {
                assert(old_fields.skip(i as int)[0] == old_fields[i as int]);
            } else {
                assert(old_fields.skip(i as int).len() == 0);
            }
        }
        if i < self.fields.len() {
            self.fields.set(i, (k, value));
            proof {
                assert forall|q: Seq<char>|
                    #[trigger] field_lookup(self.fields@, q) == if q == key@ {
                        Some(value)
                    } else {
                        field_lookup(old_fields, q)
                    } by {
                    lemma_lookup_update(old_fields, i as int, entry, q);
                }
            }
        } else {
            self.fields.push((k, value));
            proof {
                assert forall|q: Seq<char>|
                    #[trigger] field_lookup(self.fields@, q) == if q == key@ {
                        Some(value)
                    } else {
                        field_lookup(old_fields, q)
                    } by {
                    lemma_lookup_push(old_fields, entry, q);
                }
            }
        }
        assert(self.field_values() =~= field_map(old_fields).insert(key@, value));
    }

    pub fn get(&self, key: &str) -> (r: Option<&FieldValue>)
        ensures
            r matches Some(v) ==> self.field(key@) == Some(*v),
            r is None ==> self.field(key@) is None,
            r matches Some(v) ==> self.field_values().contains_key(key@)
                && self.field_values()[key@] == *v,
            r is None <==> !self.field_values().contains_key(key@),
    {
        let k = key.to_string();
        let i = self.position(&k);
        if i < self.fields.len() {
            proof {
                let s = self.fields@.skip(i as int);
                assert(s[0] == self.fields@[i as int]);
            }
            Some(&self.fields[i].1)
        } else {
            proof {
                assert(self.fields@.skip(i as int).len() == 0);
            }
            None
        }
    }
}

/// The ternary value that a row's field holds, if the field holds one.
pub open spec fn ternary_field(r: Row, field: Seq<char>) -> Option<Ternary> {
    match r.field(field) {
        Some(FieldValue::Ternary(t)) => Some(t),
        _ => None,
    }
}


/// Reading a field back after setting it gives the value set, and every other
/// field reads as before.
pub proof fn law_get_after_set(
    before: Row,
    after: Row,
    key: Seq<char>,
    value: FieldValue,
    other: Seq<char>,
)
    requires
        after.field_values() == before.field_values().insert(key, value),
        other != key,
    ensures
        after.field_values().contains_key(key),
        after.field_values()[key] == value,
        after.field_values().contains_key(other) == before.field_values().contains_key(other),
        before.field_values().contains_key(other) ==> after.field_values()[other]
            == before.field_values()[other],
{
}

} // verus!
