//! A keyed storage table of field-value records.
//!
//! The ledger's backing store is a single table whose rows are addressed by a
//! string key and hold one record each. A record is an ordered list of
//! `KVField` pairs read as a mapping from field name to value. The table is
//! viewed as a `Map` from key to record, and its three operations say exactly
//! how that map changes: `get` reads, `insert` creates a fresh row and
//! refuses a duplicate key, `update` rewrites an existing row and refuses a
//! missing key. Both writers return the number of rows they touched.

use vstd::prelude::*;

verus! {

/// One field of a storage record: a field name and its scalar value.
pub struct KVField {
    pub key: String,
    pub value: String,
}

/// One storage record: an ordered list of fields, read as a mapping from
/// field name to value, the first occurrence of a name winning.
pub struct Entry {
    pub fields: Vec<KVField>,
}

/// The value of the first field named `k` in a record, if any.
pub open spec fn field_of(fs: Seq<KVField>, k: Seq<char>) -> Option<Seq<char>>
    decreases fs.len(),
{
    if fs.len() == 0 {
        None
    } else if fs[0].key@ == k {
        Some(fs[0].value@)
    } else {
        field_of(fs.drop_first(), k)
    }
}

/// Looking a field up ignores a prefix in which its name does not occur.
proof fn lemma_field_of_skip(fs: Seq<KVField>, k: Seq<char>, i: int)
    requires
        0 <= i <= fs.len(),
        forall|j: int| 0 <= j < i ==> (#[trigger] fs[j]).key@ != k,
    ensures
        field_of(fs, k) == field_of(fs.skip(i), k),
    decreases i,
{
    if i == 0 {
        assert(fs.skip(0) =~= fs);
    } else {
        lemma_field_of_skip(fs, k, i - 1);
        assert(fs.skip(i - 1)[0] == fs[i - 1]);
        assert(fs.skip(i - 1).drop_first() =~= fs.skip(i));
    }
}

impl Entry {
    /// A record with no fields.
    pub fn new() -> (e: Entry)
        ensures
            e.fields@ == Seq::<KVField>::empty(),
    {
        Entry { fields: Vec::new() }
    }

    /// Appends a field to the record.
    pub fn push_field(&mut self, key: String, value: String)
        ensures
            final(self).fields@ == old(self).fields@.push((KVField { key, value })),
    {
        self.fields.push(KVField { key, value });
    }

    /// The value of the first field named `k`, if the record has one.
    pub fn get_field(&self, k: &String) -> (r: Option<&String>)
        ensures
            match r {
                Some(v) => field_of(self.fields@, k@) == Some(v@),
                None => field_of(self.fields@, k@) is None,
            },
    {
        let n = self.fields.len();
        let mut i: usize = 0;
        while i < n
            invariant
                n == self.fields@.len(),
                0 <= i <= n,
                forall|j: int| 0 <= j < i ==> (#[trigger] self.fields@[j]).key@ != k@,
            decreases n - i,
        {
            if self.fields[i].key == *k {
                proof {
                    lemma_field_of_skip(self.fields@, k@, i as int);
                    assert(self.fields@.skip(i as int)[0] == self.fields@[i as int]);
                }
                return Some(&self.fields[i].value);
            }
            i = i + 1;
        }
        proof {
            lemma_field_of_skip(self.fields@, k@, n as int);
            assert(self.fields@.skip(n as int) =~= Seq::<KVField>::empty());
        }
        None
    }
}

/// The table as a mathematical map: later rows shadow earlier ones, though
/// a well-formed table never holds the same key twice.
pub open spec fn rows_view(rows: Seq<(String, Entry)>) -> Map<Seq<char>, Seq<KVField>>
    decreases rows.len(),
{
    if rows.len() == 0 {
        Map::empty()
    } else {
        rows_view(rows.drop_last()).insert(rows.last().0@, rows.last().1.fields@)
    }
}

/// No two rows share a key.
pub open spec fn unique_keys(rows: Seq<(String, Entry)>) -> bool {
    forall|i: int, j: int|
        0 <= i < j < rows.len() ==> (#[trigger] rows[i]).0@ != (#[trigger] rows[j]).0@
}

proof fn lemma_unique_keys_drop_last(rows: Seq<(String, Entry)>)
    requires
        unique_keys(rows),
        rows.len() > 0,
    ensures
        unique_keys(rows.drop_last()),
{
    assert forall|i: int, j: int|
        0 <= i < j < rows.drop_last().len() implies (#[trigger] rows.drop_last()[i]).0@ != (
    #[trigger] rows.drop_last()[j]).0@ by {
        assert(rows.drop_last()[i] == rows[i]);
        assert(rows.drop_last()[j] == rows[j]);
    }
}

/// A key is in the table's map exactly when some row holds it.
proof fn lemma_rows_view_contains(rows: Seq<(String, Entry)>, k: Seq<char>)
    ensures
        rows_view(rows).contains_key(k) <==> (exists|i: int|
            0 <= i < rows.len() && (#[trigger] rows[i]).0@ == k),
    decreases rows.len(),
{
    if rows.len() == 0 {
    } else {
        lemma_rows_view_contains(rows.drop_last(), k);
        if rows.last().0@ == k {
            assert(rows[rows.len() - 1].0@ == k);
        } else {
            if rows_view(rows).contains_key(k) {
                let i = choose|i: int|
                    0 <= i < rows.drop_last().len() && (#[trigger] rows.drop_last()[i]).0@ == k;
                assert(rows.drop_last()[i] == rows[i]);
            }
            if exists|i: int| 0 <= i < rows.len() && (#[trigger] rows[i]).0@ == k {
                let i = choose|i: int| 0 <= i < rows.len() && (#[trigger] rows[i]).0@ == k;
                assert(rows.drop_last()[i] == rows[i]);
            }
        }
    }
}

/// In a table without duplicate keys, the map reads each row's record at its
/// row's key.
proof fn lemma_rows_view_at(rows: Seq<(String, Entry)>, i: int)
    requires
        unique_keys(rows),
        0 <= i < rows.len(),
    ensures
        rows_view(rows).contains_key(rows[i].0@),
        rows_view(rows)[rows[i].0@] == rows[i].1.fields@,
    decreases rows.len(),
{
    if i < rows.len() - 1 {
        lemma_unique_keys_drop_last(rows);
        lemma_rows_view_at(rows.drop_last(), i);
        assert(rows.drop_last()[i] == rows[i]);
    }
}

/// Rewriting one row under its own key inserts the new record into the map.
proof fn lemma_rows_view_update(rows: Seq<(String, Entry)>, i: int, krep: String, e: Entry)
    requires
        unique_keys(rows),
        0 <= i < rows.len(),
        krep@ == rows[i].0@,
    ensures
        rows_view(rows.update(i, (krep, e))) == rows_view(rows).insert(krep@, e.fields@),
        unique_keys(rows.update(i, (krep, e))),
    decreases rows.len(),
{
    let rows2 = rows.update(i, (krep, e));
    assert forall|a: int, b: int|
        0 <= a < b < rows2.len() implies (#[trigger] rows2[a]).0@ != (#[trigger] rows2[b]).0@ by {
        assert(rows2[a].0@ == rows[a].0@);
        assert(rows2[b].0@ == rows[b].0@);
    }
    if i == rows.len() - 1 {
        assert(rows2.drop_last() =~= rows.drop_last());
        assert(rows_view(rows2) =~= rows_view(rows).insert(krep@, e.fields@));
    } else {
        lemma_unique_keys_drop_last(rows);
        lemma_rows_view_update(rows.drop_last(), i, krep, e);
        assert(rows2.drop_last() =~= rows.drop_last().update(i, (krep, e)));
        assert(rows2.last() == rows.last());
        assert(rows.last().0@ != rows[i].0@);
        assert(rows_view(rows2) =~= rows_view(rows).insert(krep@, e.fields@));
    }
}

/// The single storage table: rows of records addressed by a string key.
pub struct KvTable {
    pub rows: Vec<(String, Entry)>,
}

impl View for KvTable {
    type V = Map<Seq<char>, Seq<KVField>>;

    open spec fn view(&self) -> Map<Seq<char>, Seq<KVField>> {
        rows_view(self.rows@)
    }
}

impl KvTable {
    /// No row's key repeats.
    pub open spec fn wf(self) -> bool {
        unique_keys(self.rows@)
    }

    /// An empty table.
    pub fn new() -> (t: Self)
        ensures
            t.wf(),
            t@ == Map::<Seq<char>, Seq<KVField>>::empty(),
    {
        KvTable { rows: Vec::new() }
    }

    /// The index of the row keyed by `key`, if any.
    fn find(&self, key: &String) -> (r: Option<usize>)
        ensures
            match r {
                Some(i) => i < self.rows@.len() && self.rows@[i as int].0@ == key@,
                None => forall|j: int|
                    0 <= j < self.rows@.len() ==> (#[trigger] self.rows@[j]).0@ != key@,
            },
    {
        let n = self.rows.len();
        let mut i: usize = 0;
        while i < n
            invariant
                n == self.rows@.len(),
                0 <= i <= n,
                forall|j: int| 0 <= j < i ==> (#[trigger] self.rows@[j]).0@ != key@,
            decreases n - i,
        {
            if self.rows[i].0 == *key {
                return Some(i);
            }
            i = i + 1;
        }
        None
    }

    /// Reads the record keyed by `key`.
    pub fn get(&self, key: &String) -> (r: Option<&Entry>)
        requires
            self.wf(),
        ensures
            match r {
                Some(e) => self@.contains_key(key@) && self@[key@] == e.fields@,
                None => !self@.contains_key(key@),
            },
    {
        match self.find(key) {
            Some(i) => {
                proof {
                    lemma_rows_view_at(self.rows@, i as int);
                }
                Some(&self.rows[i].1)
            },
            None => {
                proof {
                    lemma_rows_view_contains(self.rows@, key@);
                }
                None
            },
        }
    }

    /// Adds a fresh row; a duplicate key leaves the table unchanged. Returns
    /// the number of rows written.
    pub fn insert(&mut self, key: String, entry: Entry) -> (n: i64)
        requires
            old(self).wf(),
        ensures
            final(self).wf(),
            old(self)@.contains_key(key@) ==> n == 0 && *final(self) == *old(self),
            !old(self)@.contains_key(key@) ==> n == 1 && final(self)@ == old(self)@.insert(
                key@,
                entry.fields@,
            ),
    {
        proof {
            lemma_rows_view_contains(self.rows@, key@);
        }
        match self.find(&key) {
            Some(_) => 0,
            None => {
                self.rows.push((key, entry));
                proof {
                    assert(self.rows@.drop_last() =~= old(self).rows@);
                    assert forall|a: int, b: int|
                        0 <= a < b < self.rows@.len() implies (#[trigger] self.rows@[a]).0@ != (
                    #[trigger] self.rows@[b]).0@ by {
                        if b < self.rows@.len() - 1 {
                            assert(self.rows@[a] == old(self).rows@[a]);
                            assert(self.rows@[b] == old(self).rows@[b]);
                        } else {
                            assert(self.rows@[a] == old(self).rows@[a]);
                        }
                    }
                }
                1
            },
        }
    }

    /// Rewrites the record of an existing row; a missing key leaves the
    /// table unchanged. Returns the number of rows written.
    pub fn update(&mut self, key: &String, entry: Entry) -> (n: i64)
        requires
            old(self).wf(),
        ensures
            final(self).wf(),
            old(self)@.contains_key(key@) ==> n == 1 && final(self)@ == old(self)@.insert(
                key@,
                entry.fields@,
            ),
            !old(self)@.contains_key(key@) ==> n == 0 && *final(self) == *old(self),
    {
        proof {
            lemma_rows_view_contains(self.rows@, key@);
        }
        match self.find(key) {
            Some(i) => {
                let krep = key.clone();
                self.rows[i] = (krep, entry);
                proof {
                    lemma_rows_view_update(
                        old(self).rows@,
                        i as int,
                        self.rows@[i as int].0,
                        self.rows@[i as int].1,
                    );
                }
                1
            },
            None => 0,
        }
    }
}

} // verus!
