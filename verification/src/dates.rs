//! Date entries: a key `YYYYMMDD` and the label of the day, kept in a table
//! where each key appears once.

use vstd::prelude::*;
use vstd::string::StringSliceAdditionalSpecFns;

verus! {

/// One date: its key (`YYYYMMDD`, the first 8 characters of the file name) and its label.
#[derive(Clone, Debug)]
pub struct DateEntry {
    pub key: String,
    pub label: String,
}

/// The first 8 characters of a file name, if it has that many, as the date key.
pub fn date_key_of(file_name: &str) -> (r: Option<String>)
    ensures
        r is Some <==> file_name@.len() >= 8,
        r matches Some(k) ==> k@ == file_name@.subrange(0, 8),
{
    let n = file_name.unicode_len();
    if n < 8 {
        return None;
    }
    Some(file_name.substring_char(0, 8).to_owned())
}

/// Dates by key, each key at most once, in the order in which keys were first added.
pub struct DateTable {
    entries: Vec<DateEntry>,
}

/// The keys of `entries` are pairwise distinct.
pub open spec fn keys_distinct(entries: Seq<DateEntry>) -> bool {
    forall|i: int, j: int|
        0 <= i < j < entries.len() ==> #[trigger] entries[i].key@ != #[trigger] entries[j].key@
}

/// The map from keys to labels that `entries` describe.
pub open spec fn entries_map(entries: Seq<DateEntry>) -> Map<Seq<char>, Seq<char>>
    decreases entries.len(),
{
    if entries.len() == 0 {
        Map::empty()
    } else {
        entries_map(entries.drop_last()).insert(entries.last().key@, entries.last().label@)
    }
}

impl DateTable {
    /// The entries of the table, in order.
    pub closed spec fn spec_entries(&self) -> Seq<DateEntry> {
        self.entries@
    }

    /// Each key appears once.
    pub open spec fn wf(&self) -> bool {
        keys_distinct(self.spec_entries())
    }

    /// The table as a map from keys to labels.
    pub open spec fn spec_map(&self) -> Map<Seq<char>, Seq<char>> {
        entries_map(self.spec_entries())
    }

    /// An empty table.
    pub fn new() -> (r: DateTable)
        ensures
            r.wf(),
            r.spec_entries().len() == 0,
    {
        DateTable { entries: Vec::new() }
    }

    /// The entries, in order.
    pub fn entries(&self) -> (r: &Vec<DateEntry>)
        ensures
            r@ == self.spec_entries(),
    {
        &self.entries
    }

    /// Sets the label of `key`: an existing entry keeps its place and takes the
    /// new label, a new key is added at the end.
    pub fn insert(&mut self, key: String, label: String)
        requires
            old(self).wf(),
        ensures
            final(self).wf(),
            final(self).spec_map() == old(self).spec_map().insert(key@, label@),
            ({
                let old_entries = old(self).spec_entries();
                let new_entries = final(self).spec_entries();
                if exists|i: int| 0 <= i < old_entries.len() && #[trigger] old_entries[i].key@ == key@ {
                    new_entries.len() == old_entries.len() && forall|i: int|
                        0 <= i < old_entries.len() ==> (#[trigger] new_entries[i]).key@
                            == old_entries[i].key@ && new_entries[i].label@ == (if old_entries[i].key@
                            == key@ {
                            label@
                        } else {
                            old_entries[i].label@
                        })
                } else {
                    new_entries.len() == old_entries.len() + 1 && new_entries.last().key@ == key@
                        && new_entries.last().label@ == label@ && forall|i: int|
                        0 <= i < old_entries.len() ==> #[trigger] new_entries[i] == old_entries[i]
                }
            }),
    {
        let mut i: usize = 0;
        while i < self.entries.len()
            invariant
                i <= self.entries@.len(),
                self.entries@ == old(self).entries@,
                keys_distinct(self.entries@),
                forall|k: int| 0 <= k < i ==> (#[trigger] self.entries@[k]).key@ != key@,
            decreases self.entries@.len() - i,
        {
            if self.entries[i].key == key {
                let ghost before = self.entries@;
                let old_key = self.entries[i].key.clone();
                let e = DateEntry { key: old_key, label };
                let ghost eg = e;
                self.entries.set(i, e);
                proof {
                    lemma_entries_map_update(before, i as int, eg);
                }
                return;
            }
            i = i + 1;
        }
        let ghost before = self.entries@;
        self.entries.push(DateEntry { key, label });
        proof {
            assert(self.entries@.drop_last() =~= before);
        }
    }
}

proof fn lemma_entries_map_update(entries: Seq<DateEntry>, i: int, e: DateEntry)
    requires
        keys_distinct(entries),
        0 <= i < entries.len(),
        e.key@ == entries[i].key@,
    ensures
        entries_map(entries.update(i, e)) == entries_map(entries).insert(e.key@, e.label@),
    decreases entries.len(),
{
    let updated = entries.update(i, e);
    if i == entries.len() - 1 {
        assert(updated.drop_last() =~= entries.drop_last());
        assert forall|k: int| 0 <= k < entries.drop_last().len() implies (
        #[trigger] entries.drop_last()[k]).key@ != e.key@ by {
            assert(entries.drop_last()[k] == entries[k]);
        }
        lemma_entries_map_absent(entries.drop_last(), e.key@);
        assert(entries_map(updated) =~= entries_map(entries).insert(e.key@, e.label@));
    } else {
        assert(updated.drop_last() =~= entries.drop_last().update(i, e));
        assert(keys_distinct(entries.drop_last())) by {
            assert forall|p: int, q: int| 0 <= p < q < entries.drop_last().len() implies #[trigger] entries.drop_last()[p].key@
                != #[trigger] entries.drop_last()[q].key@ by {
                assert(entries.drop_last()[p] == entries[p]);
                assert(entries.drop_last()[q] == entries[q]);
            }
        }
        lemma_entries_map_update(entries.drop_last(), i, e);
        assert(entries[entries.len() - 1].key@ != e.key@);
        assert(entries_map(updated) =~= entries_map(entries).insert(e.key@, e.label@));
    }
}

proof fn lemma_entries_map_absent(entries: Seq<DateEntry>, key: Seq<char>)
    requires
        forall|k: int| 0 <= k < entries.len() ==> (#[trigger] entries[k]).key@ != key,
    ensures
        !entries_map(entries).contains_key(key),
    decreases entries.len(),
{
    if entries.len() > 0 {
        lemma_entries_map_absent(entries.drop_last(), key);
    }
}


/// The character is an ASCII decimal digit.
pub open spec fn is_ascii_digit(c: char) -> bool {
    '0' <= c <= '9'
}

/// A well-formed key: 8 bytes, all ASCII digits.
pub open spec fn is_date_key_text(key: &str) -> bool {
    key.spec_bytes().len() == 8 && forall|i: int| 0 <= i < key@.len() ==> is_ascii_digit(#[trigger] key@[i])
}

/// A date that the service stores under a well-formed key, in the file
/// `KEY.txt`, is read back under that same key: the file name's first 8
/// characters are the key.
pub proof fn lemma_stored_name_reads_back(key: Seq<char>)
    requires
        key.len() == 8,
        forall|i: int| 0 <= i < key.len() ==> is_ascii_digit(#[trigger] key[i]),
    ensures
        (key + ".txt"@).len() >= 8,
        (key + ".txt"@).subrange(0, 8) == key,
{
    assert((key + ".txt"@).subrange(0, 8) =~= key);
}

/// A key is accepted exactly when it is 8 ASCII digits: an accepted key has 8
/// characters and 8 bytes, all digits, and every 8-digit text is accepted.
pub proof fn lemma_date_key_shape(key: &str)
    ensures
        is_date_key_text(key) ==> key@.len() == 8 && key.spec_bytes().len() == 8,
        is_date_key_text(key) ==> forall|i: int| 0 <= i < key@.len() ==> is_ascii_digit(#[trigger] key@[i]),
        (key@.len() == 8 && forall|i: int| 0 <= i < key@.len() ==> is_ascii_digit(#[trigger] key@[i]))
            ==> is_date_key_text(key),
{
    if forall|i: int| 0 <= i < key@.len() ==> is_ascii_digit(#[trigger] key@[i]) {
        assert(vstd::utf8::is_ascii_chars(key@)) by {
            assert forall|i: int| 0 <= i < key@.len() implies '\0' <= #[trigger] key@[i] <= '\u{7f}' by {
                assert(is_ascii_digit(key@[i]));
            }
        }
        vstd::utf8::is_ascii_chars_encode_utf8(key@);
    }
}

/// Whether `key` is 8 bytes of ASCII digits.
pub fn is_date_key(key: &str) -> (r: bool)
    ensures
        r == is_date_key_text(key),
{
    let bytes = key.as_bytes();
    if bytes.len() != 8 {
        return false;
    }
    let chars = crate::text::chars_of(key);
    let mut i: usize = 0;
    while i < chars.len()
        invariant
            chars@ == key@,
            bytes@.len() == 8,
            bytes@ == key.spec_bytes(),
            i <= chars@.len(),
            forall|k: int| 0 <= k < i ==> is_ascii_digit(#[trigger] key@[k]),
        decreases chars@.len() - i,
    {
        let c = chars[i];
        if !('0' <= c && c <= '9') {
            return false;
        }
        i = i + 1;
    }
    true
}

} // verus!
