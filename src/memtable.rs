//! The memtable: an in-memory sorted map from key to value or tombstone,
//! with a running count of its approximate size in bytes.
use vstd::prelude::*;
use crate::bytes::{copy_range, bytes_eq, lemma_lex_irreflexive, bytes_lt, lemma_lex_transitive, lemma_lex_trichotomy, lex_lt};

verus! {

/// An entry of the memtable.
#[derive(Debug, Clone, PartialEq, Eq)]
pub enum MemTableEntry {
    /// A live value.
    Value(Vec<u8>),
    /// A deleted key.
    Tombstone,
}

/// The mathematical value of a memtable entry.
pub enum EntryView {
    Value(Seq<u8>),
    Tombstone,
}

impl View for MemTableEntry {
    type V = EntryView;

    open spec fn view(&self) -> EntryView {
        match self {
            MemTableEntry::Value(v) => EntryView::Value(v@),
            MemTableEntry::Tombstone => EntryView::Tombstone,
        }
    }
}

/// Bytes that an entry counts for: key plus value, or key alone for a tombstone.
pub open spec fn entry_bytes(kv: (Seq<u8>, EntryView)) -> nat {
    kv.0.len() + match kv.1 {
        EntryView::Value(v) => v.len(),
        EntryView::Tombstone => 0,
    }
}

/// Sum of `entry_bytes` over a list of entries.
pub open spec fn total_size(s: Seq<(Seq<u8>, EntryView)>) -> nat
    decreases s.len(),
{
    if s.len() == 0 {
        0
    } else {
        total_size(s.drop_last()) + entry_bytes(s.last())
    }
}

/// Keys strictly ascending in lexicographic order.
pub open spec fn sorted_keys(s: Seq<(Seq<u8>, EntryView)>) -> bool {
    forall|i: int, j: int| 0 <= i < j < s.len() ==> lex_lt(#[trigger] s[i].0, #[trigger] s[j].0)
}

/// Entry `i` of the list holds `key`.
pub open spec fn holds_key(s: Seq<(Seq<u8>, EntryView)>, key: Seq<u8>, i: int) -> bool {
    0 <= i < s.len() && s[i].0 == key
}

/// The entry held for `key`, if any.
pub open spec fn lookup(s: Seq<(Seq<u8>, EntryView)>, key: Seq<u8>) -> Option<EntryView> {
    if exists|i: int| holds_key(s, key, i) {
        Some(s[choose|i: int| holds_key(s, key, i)].1)
    } else {
        None
    }
}

/// Index of the first entry whose key is not before `key`.
pub open spec fn split_index(s: Seq<(Seq<u8>, EntryView)>, key: Seq<u8>) -> int
    decreases s.len(),
{
    if s.len() == 0 {
        0
    } else if lex_lt(s[0].0, key) {
        1 + split_index(s.drop_first(), key)
    } else {
        0
    }
}

/// The list after setting `key` to `e`: the entry for `key` is replaced, or
/// a new one is inserted where the key order puts it.
pub open spec fn upsert(s: Seq<(Seq<u8>, EntryView)>, key: Seq<u8>, e: EntryView) -> Seq<
    (Seq<u8>, EntryView),
> {
    let i = split_index(s, key);
    if i < s.len() && s[i].0 == key {
        s.update(i, (key, e))
    } else {
        s.insert(i, (key, e))
    }
}

/// A split point of the list at `key` is the split index.
pub proof fn lemma_split_index(s: Seq<(Seq<u8>, EntryView)>, key: Seq<u8>, r: int)
    requires
        0 <= r <= s.len(),
        forall|j: int| 0 <= j < r ==> lex_lt(#[trigger] s[j].0, key),
        forall|j: int| r <= j < s.len() ==> !lex_lt(#[trigger] s[j].0, key),
    ensures
        split_index(s, key) == r,
    decreases s.len(),
{
    if s.len() > 0 && r > 0 {
        let t = s.drop_first();
        assert forall|j: int| 0 <= j < r - 1 implies lex_lt(#[trigger] t[j].0, key) by {
            assert(t[j] == s[j + 1]);
        }
        assert forall|j: int| r - 1 <= j < t.len() implies !lex_lt(#[trigger] t[j].0, key) by {
            assert(t[j] == s[j + 1]);
        }
        lemma_split_index(t, key, r - 1);
    }
}

/// The views of a list of stored pairs.
pub open spec fn pairs_view(v: Seq<(Vec<u8>, MemTableEntry)>) -> Seq<(Seq<u8>, EntryView)> {
    v.map_values(|p: (Vec<u8>, MemTableEntry)| (p.0@, p.1@))
}

pub proof fn lemma_total_size_update(s: Seq<(Seq<u8>, EntryView)>, i: int, x: (Seq<u8>, EntryView))
    requires
        0 <= i < s.len(),
    ensures
        total_size(s.update(i, x)) + entry_bytes(s[i]) == total_size(s) + entry_bytes(x),
    decreases s.len(),
{
    if i == s.len() - 1 {
        assert(s.update(i, x).drop_last() =~= s.drop_last());
    } else {
        lemma_total_size_update(s.drop_last(), i, x);
        assert(s.update(i, x).drop_last() =~= s.drop_last().update(i, x));
    }
}

pub proof fn lemma_total_size_insert(s: Seq<(Seq<u8>, EntryView)>, i: int, x: (Seq<u8>, EntryView))
    requires
        0 <= i <= s.len(),
    ensures
        total_size(s.insert(i, x)) == total_size(s) + entry_bytes(x),
    decreases s.len(),
{
    if i == s.len() {
        assert(s.insert(i, x).drop_last() =~= s);
    } else {
        lemma_total_size_insert(s.drop_last(), i, x);
        assert(s.insert(i, x).drop_last() =~= s.drop_last().insert(i, x));
    }
}

/// An entry counts for no more than the whole list.
pub proof fn lemma_entry_le_total(s: Seq<(Seq<u8>, EntryView)>, i: int)
    requires
        0 <= i < s.len(),
    ensures
        entry_bytes(s[i]) <= total_size(s),
    decreases s.len(),
{
    if i < s.len() - 1 {
        lemma_entry_le_total(s.drop_last(), i);
    }
}

/// In-memory table of recent writes.
pub struct MemTable {
    entries: Vec<(Vec<u8>, MemTableEntry)>,
    size: usize,
}

fn clone_entry(e: &MemTableEntry) -> (r: MemTableEntry)
    ensures
        r@ == e@,
{
    match e {
        MemTableEntry::Value(v) => {
            let c = copy_range(v.as_slice(), 0, v.len());
            assert(c@ =~= v@);
            MemTableEntry::Value(c)
        },
        MemTableEntry::Tombstone => MemTableEntry::Tombstone,
    }
}

impl Default for MemTable {
    fn default() -> (r: Self)
        ensures
            r.wf(),
            r@.len() == 0,
    {
        MemTable::new()
    }
}

impl View for MemTable {
    type V = Seq<(Seq<u8>, EntryView)>;

    closed spec fn view(&self) -> Seq<(Seq<u8>, EntryView)> {
        pairs_view(self.entries@)
    }
}

impl MemTable {
    /// The size counter.
    pub closed spec fn spec_size(&self) -> usize {
        self.size
    }

    /// Keys are sorted and unique, and the size counter is the sum of the
    /// entries' sizes.
    pub open spec fn wf(&self) -> bool {
        &&& sorted_keys(self@)
        &&& self.spec_size() == total_size(self@)
    }

    /// An empty memtable.
    pub fn new() -> (r: Self)
        ensures
            r.wf(),
            r@.len() == 0,
    {
        let r = MemTable { entries: Vec::new(), size: 0 };
        assert(r@ =~= Seq::empty());
        r
    }

    /// Index of the first entry whose key is not before `key`.
    fn find(&self, key: &[u8]) -> (r: usize)
        requires
            self.wf(),
        ensures
            r <= self@.len(),
            forall|j: int| 0 <= j < r ==> lex_lt(#[trigger] self@[j].0, key@),
            forall|j: int| r <= j < self@.len() ==> !lex_lt(#[trigger] self@[j].0, key@),
    {
        let mut lo: usize = 0;
        let mut hi: usize = self.entries.len();
        while lo < hi
            invariant
                0 <= lo <= hi <= self@.len(),
                self@.len() == self.entries@.len(),
                self.wf(),
                forall|j: int| 0 <= j < lo ==> lex_lt(#[trigger] self@[j].0, key@),
                forall|j: int| hi <= j < self@.len() ==> !lex_lt(#[trigger] self@[j].0, key@),
            decreases hi - lo,
        {
            let mid = lo + (hi - lo) / 2;
            let is_before = bytes_lt(self.entries[mid].0.as_slice(), key);
            assert(self@[mid as int].0 == self.entries@[mid as int].0@);
            if is_before {
                assert forall|j: int| 0 <= j < mid + 1 implies lex_lt(#[trigger] self@[j].0, key@) by {
                    if j < mid {
                        lemma_lex_transitive(self@[j].0, self@[mid as int].0, key@);
                    }
                }
                lo = mid + 1;
            } else {
                assert forall|j: int| mid <= j < self@.len() implies !lex_lt(
                    #[trigger] self@[j].0,
                    key@,
                ) by {
                    if j > mid && lex_lt(self@[j].0, key@) {
                        lemma_lex_transitive(self@[mid as int].0, self@[j].0, key@);
                    }
                }
                hi = mid;
            }
        }
        lo
    }

    /// The entry held for `key`.
    pub fn get(&self, key: &[u8]) -> (r: Option<MemTableEntry>)
        requires
            self.wf(),
        ensures
            r matches Some(e) ==> lookup(self@, key@) == Some(e@),
            r is None ==> lookup(self@, key@) is None,
    {
        let i = self.find(key);
        if i < self.entries.len() && bytes_eq(self.entries[i].0.as_slice(), key) {
            assert(self@[i as int].0 == key@);
            proof { self.lemma_unique(key@, i as int); }
            Some(clone_entry(&self.entries[i].1))
        } else {
            proof {
                if exists|j: int| holds_key(self@, key@, j) {
                    let j = choose|j: int| holds_key(self@, key@, j);
                    lemma_lex_trichotomy(key@, key@);
                    if j < i {
                        assert(lex_lt(self@[j].0, key@));
                    } else if j > i {
                        assert(lex_lt(self@[i as int].0, self@[j].0));
                        lemma_lex_trichotomy(self@[i as int].0, key@);
                    }
                }
            }
            None
        }
    }

    /// The index that holds `key` is the only one.
    proof fn lemma_unique(&self, key: Seq<u8>, i: int)
        requires
            self.wf(),
            0 <= i < self@.len(),
            self@[i].0 == key,
        ensures
            lookup(self@, key) == Some(self@[i].1),
    {
        assert(holds_key(self@, key, i));
        let j = choose|j: int| holds_key(self@, key, j);
        assert(lookup(self@, key) == Some(self@[j].1));
        crate::bytes::lemma_lex_irreflexive(key);
        if j < i {
            assert(lex_lt(self@[j].0, self@[i].0));
        } else if j > i {
            assert(lex_lt(self@[i].0, self@[j].0));
        }
        assert(j == i);
    }

    /// Sets `key` to `entry`, keeping the order and the size counter.
    #[verifier::spinoff_prover]
    #[verifier::rlimit(60)]
    fn upsert(&mut self, key: Vec<u8>, entry: MemTableEntry) -> (r: usize)
        requires
            old(self).wf(),
            old(self).spec_size() + entry_bytes((key@, entry@)) <= usize::MAX,
        ensures
            final(self).wf(),
            final(self)@ == upsert(old(self)@, key@, entry@),
            r == final(self).spec_size(),
    {
        let ghost s = self@;
        let ghost kv = (key@, entry@);
        let i = self.find(key.as_slice());
        proof {
            lemma_split_index(s, key@, i as int);
        }
        let added = key.len() + match &entry {
            MemTableEntry::Value(v) => v.len(),
            MemTableEntry::Tombstone => 0,
        };
        if i < self.entries.len() && bytes_eq(self.entries[i].0.as_slice(), key.as_slice()) {
            proof {
                lemma_entry_le_total(s, i as int);
            }
            let old_bytes = self.entries[i].0.len() + match &self.entries[i].1 {
                MemTableEntry::Value(v) => v.len(),
                MemTableEntry::Tombstone => 0,
            };
            proof {
                lemma_total_size_update(s, i as int, kv);
                lemma_entry_le_total(s, i as int);
                assert(entry_bytes(s[i as int]) == old_bytes);
            }
            self.entries.set(i, (key, entry));
            self.size = self.size - old_bytes + added;
            assert(self@ =~= s.update(i as int, kv));
            assert forall|a: int, b: int| 0 <= a < b < self@.len() implies lex_lt(
                #[trigger] self@[a].0,
                #[trigger] self@[b].0,
            ) by {
                assert(s[a].0 == self@[a].0 && s[b].0 == self@[b].0);
            }
        } else {
            proof {
                lemma_total_size_insert(s, i as int, kv);
                if (i as int) < s.len() {
                    lemma_lex_trichotomy(s[i as int].0, key@);
                }
            }
            self.entries.insert(i, (key, entry));
            self.size = self.size + added;
            assert(self@ =~= s.insert(i as int, kv));
            assert forall|a: int, b: int| 0 <= a < b < self@.len() implies lex_lt(
                #[trigger] self@[a].0,
                #[trigger] self@[b].0,
            ) by {
                if b == i {
                } else if a == i {
                    if b > i + 1 {
                        lemma_lex_transitive(key@, s[i as int].0, s[b - 1].0);
                    }
                } else {
                    let a0 = if a < i { a } else { a - 1 };
                    let b0 = if b < i { b } else { b - 1 };
                    assert(lex_lt(s[a0].0, s[b0].0));
                }
            }
        }
        self.size
    }

    /// Puts a key-value pair and returns the new size.
    pub fn put(&mut self, key: Vec<u8>, value: Vec<u8>) -> (r: usize)
        requires
            old(self).wf(),
            old(self).spec_size() + key@.len() + value@.len() <= usize::MAX,
        ensures
            final(self).wf(),
            final(self)@ == upsert(old(self)@, key@, EntryView::Value(value@)),
            r == final(self).spec_size(),
            r == total_size(final(self)@),
    {
        self.upsert(key, MemTableEntry::Value(value))
    }

    /// Marks `key` as deleted with a tombstone and returns the new size.
    pub fn delete(&mut self, key: Vec<u8>) -> (r: usize)
        requires
            old(self).wf(),
            old(self).spec_size() + key@.len() <= usize::MAX,
        ensures
            final(self).wf(),
            final(self)@ == upsert(old(self)@, key@, EntryView::Tombstone),
            r == final(self).spec_size(),
            r == total_size(final(self)@),
    {
        self.upsert(key, MemTableEntry::Tombstone)
    }

    /// The approximate size in bytes.
    pub fn size(&self) -> (r: usize)
        ensures
            r == self.spec_size(),
    {
        self.size
    }

    /// The number of entries, tombstones included.
    pub fn entry_count(&self) -> (r: usize)
        ensures
            r == self@.len(),
    {
        self.entries.len()
    }

    /// Whether the memtable holds no entry.
    pub fn is_empty(&self) -> (r: bool)
        ensures
            r == (self@.len() == 0),
    {
        self.entries.len() == 0
    }

    /// Whether the size has reached `size_limit`.
    pub fn should_flush(&self, size_limit: usize) -> (r: bool)
        ensures
            r == (self.spec_size() >= size_limit),
    {
        self.size >= size_limit
    }

    /// A copy of all entries in ascending key order, tombstones included.
    pub fn iter(&self) -> (r: Vec<(Vec<u8>, MemTableEntry)>)
        requires
            self.wf(),
        ensures
            pairs_view(r@) == self@,
            sorted_keys(pairs_view(r@)),
    {
        let mut out: Vec<(Vec<u8>, MemTableEntry)> = Vec::new();
        let mut i: usize = 0;
        while i < self.entries.len()
            invariant
                i <= self.entries@.len(),
                pairs_view(out@) == self@.subrange(0, i as int),
            decreases self.entries@.len() - i,
        {
            let k = copy_range(self.entries[i].0.as_slice(), 0, self.entries[i].0.len());
            let e = clone_entry(&self.entries[i].1);
            assert(k@ =~= self@[i as int].0);
            let ghost prev = out@;
            out.push((k, e));
            assert(pairs_view(out@) =~= pairs_view(prev).push(self@[i as int]));
            assert(pairs_view(out@) =~= self@.subrange(0, i + 1));
            i = i + 1;
        }
        assert(self@.subrange(0, i as int) =~= self@);
        out
    }

    /// Removes every entry and resets the size.
    pub fn clear(&mut self)
        ensures
            final(self).wf(),
            final(self)@.len() == 0,
    {
        self.entries.clear();
        self.size = 0;
        assert(self@ =~= Seq::empty());
    }
}

/// The split index of a sorted list divides the keys before `key` from the rest.
pub proof fn lemma_split_index_bounds(s: Seq<(Seq<u8>, EntryView)>, key: Seq<u8>)
    requires
        sorted_keys(s),
    ensures
        0 <= split_index(s, key) <= s.len(),
        forall|j: int| 0 <= j < split_index(s, key) ==> lex_lt(#[trigger] s[j].0, key),
        forall|j: int| split_index(s, key) <= j < s.len() ==> !lex_lt(#[trigger] s[j].0, key),
    decreases s.len(),
{
    if s.len() > 0 {
        let t = s.drop_first();
        assert(sorted_keys(t)) by {
            assert forall|a: int, b: int| 0 <= a < b < t.len() implies lex_lt(#[trigger] t[a].0, #[trigger] t[b].0) by {
                assert(t[a] == s[a + 1] && t[b] == s[b + 1]);
            }
        }
        lemma_split_index_bounds(t, key);
        if lex_lt(s[0].0, key) {
            assert forall|j: int| 0 <= j < split_index(s, key) implies lex_lt(#[trigger] s[j].0, key) by {
                if j > 0 {
                    assert(s[j] == t[j - 1]);
                }
            }
            assert forall|j: int| split_index(s, key) <= j < s.len() implies !lex_lt(#[trigger] s[j].0, key) by {
                assert(s[j] == t[j - 1]);
            }
        } else {
            assert forall|j: int| 0 <= j < s.len() implies !lex_lt(#[trigger] s[j].0, key) by {
                if j > 0 && lex_lt(s[j].0, key) {
                    assert(lex_lt(s[0].0, s[j].0));
                    lemma_lex_transitive(s[0].0, s[j].0, key);
                }
            }
        }
    }
}

/// In a sorted list, the entry at an index that holds `key` is the one found.
pub proof fn lemma_lookup_at(s: Seq<(Seq<u8>, EntryView)>, key: Seq<u8>, i: int)
    requires
        sorted_keys(s),
        0 <= i < s.len(),
        s[i].0 == key,
    ensures
        lookup(s, key) == Some(s[i].1),
{
    assert(holds_key(s, key, i));
    let j = choose|j: int| holds_key(s, key, j);
    lemma_lex_irreflexive(key);
    if j < i {
        assert(lex_lt(s[j].0, s[i].0));
    } else if j > i {
        assert(lex_lt(s[i].0, s[j].0));
    }
}

/// Setting a key keeps a sorted list sorted.
pub proof fn lemma_upsert_sorted(s: Seq<(Seq<u8>, EntryView)>, key: Seq<u8>, e: EntryView)
    requires
        sorted_keys(s),
    ensures
        sorted_keys(upsert(s, key, e)),
{
    lemma_split_index_bounds(s, key);
    let i = split_index(s, key);
    let u = upsert(s, key, e);
    if i < s.len() && s[i].0 == key {
        assert forall|a: int, b: int| 0 <= a < b < u.len() implies lex_lt(#[trigger] u[a].0, #[trigger] u[b].0) by {
            assert(u[a].0 == s[a].0 && u[b].0 == s[b].0);
        }
    } else {
        if i < s.len() {
            lemma_lex_trichotomy(s[i].0, key);
        }
        assert forall|a: int, b: int| 0 <= a < b < u.len() implies lex_lt(#[trigger] u[a].0, #[trigger] u[b].0) by {
            if b == i {
            } else if a == i {
                if b > i + 1 {
                    lemma_lex_transitive(key, s[i].0, s[b - 1].0);
                }
            } else {
                let a0 = if a < i { a } else { a - 1 };
                let b0 = if b < i { b } else { b - 1 };
                assert(lex_lt(s[a0].0, s[b0].0));
            }
        }
    }
}

/// After setting `key` to `e`, a lookup of `key` finds `e` and a lookup of
/// any other key finds what it found before.
#[verifier::spinoff_prover]
#[verifier::rlimit(60)]
pub proof fn lemma_upsert_lookup(s: Seq<(Seq<u8>, EntryView)>, key: Seq<u8>, e: EntryView, other: Seq<u8>)
    requires
        sorted_keys(s),
    ensures
        lookup(upsert(s, key, e), key) == Some(e),
        other != key ==> lookup(upsert(s, key, e), other) == lookup(s, other),
{
    lemma_split_index_bounds(s, key);
    lemma_upsert_sorted(s, key, e);
    let i = split_index(s, key);
    let u = upsert(s, key, e);
    let replaced = i < s.len() && s[i].0 == key;
    assert(u[i] == (key, e));
    lemma_lookup_at(u, key, i);
    if other != key {
        if exists|j: int| holds_key(s, other, j) {
            let j = choose|j: int| holds_key(s, other, j);
            lemma_lookup_at(s, other, j);
            let j2 = if replaced || j < i { j } else { j + 1 };
            assert(u[j2] == s[j]);
            lemma_lookup_at(u, other, j2);
        } else {
            assert forall|j: int| !holds_key(u, other, j) by {
                if holds_key(u, other, j) {
                    if j != i {
                        let j0 = if replaced || j < i { j } else { j - 1 };
                        assert(u[j] == s[j0]);
                        assert(holds_key(s, other, j0));
                    }
                }
            }
        }
    }
}

/// The split index lies within the list.
pub proof fn lemma_split_index_range(s: Seq<(Seq<u8>, EntryView)>, key: Seq<u8>)
    ensures
        0 <= split_index(s, key) <= s.len(),
    decreases s.len(),
{
    if s.len() > 0 {
        lemma_split_index_range(s.drop_first(), key);
    }
}

/// Setting a key grows the size by at most the new entry's size.
pub proof fn lemma_upsert_size(s: Seq<(Seq<u8>, EntryView)>, key: Seq<u8>, e: EntryView)
    ensures
        total_size(upsert(s, key, e)) <= total_size(s) + entry_bytes((key, e)),
{
    lemma_split_index_range(s, key);
    let i = split_index(s, key);
    if i < s.len() && s[i].0 == key {
        lemma_total_size_update(s, i, (key, e));
    } else {
        lemma_total_size_insert(s, i, (key, e));
    }
}

/// An entry of the list after setting `key` is the new entry or one of before.
pub proof fn lemma_upsert_member(s: Seq<(Seq<u8>, EntryView)>, key: Seq<u8>, e: EntryView, j: int)
    requires
        0 <= j < upsert(s, key, e).len(),
    ensures
        upsert(s, key, e)[j] == (key, e) || exists|m: int| 0 <= m < s.len() && s[m] == upsert(s, key, e)[j],
{
    lemma_split_index_range(s, key);
    let i = split_index(s, key);
    let u = upsert(s, key, e);
    if j != i {
        if i < s.len() && s[i].0 == key {
            assert(u[j] == s[j]);
        } else if j < i {
            assert(u[j] == s[j]);
        } else {
            assert(u[j] == s[j - 1]);
        }
    }
}

} // verus!
