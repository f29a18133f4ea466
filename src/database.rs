//! The weighted path store: a table from normalized path to weight.
//!
//! A weight is held as the bit pattern of a non-negative `f32`. For such
//! floats the order of the bit patterns as unsigned integers is the order of
//! the numbers, so the store and the ranker compare weights without floating
//! point; the arithmetic on weights is done by the caller.
use vstd::prelude::*;

verus! {

/// A stored path and the bit pattern of its weight.
pub type Entry = (String, u32);

/// The view of an entry: the path's characters and the weight bits.
pub type EntryView = (Seq<char>, u32);

/// The weight given to a path that the store does not hold (`0.0`).
pub const ZERO_WEIGHT: u32 = 0;

pub open spec fn entry_view(e: Entry) -> EntryView {
    (e.0@, e.1)
}

pub open spec fn entries_view(s: Seq<Entry>) -> Seq<EntryView> {
    s.map_values(|e: Entry| entry_view(e))
}

/// No two entries share a path.
pub open spec fn unique_keys(s: Seq<EntryView>) -> bool {
    forall|i: int, j: int| 0 <= i < j < s.len() ==> #[trigger] s[i].0 != #[trigger] s[j].0
}

/// The weight that `s` holds for `k`; where several entries hold `k`, the
/// last one counts.
pub open spec fn lookup(s: Seq<EntryView>, k: Seq<char>) -> Option<u32>
    decreases s.len(),
{
    if s.len() == 0 {
        None
    } else if s.last().0 == k {
        Some(s.last().1)
    } else {
        lookup(s.drop_last(), k)
    }
}

/// The entries of `s` whose flag in `keep` is set, in order.
pub open spec fn kept(s: Seq<EntryView>, keep: Seq<bool>) -> Seq<EntryView>
    decreases s.len(),
{
    if s.len() == 0 || keep.len() != s.len() {
        Seq::empty()
    } else if keep.last() {
        kept(s.drop_last(), keep.drop_last()).push(s.last())
    } else {
        kept(s.drop_last(), keep.drop_last())
    }
}

pub proof fn lemma_lookup_some(s: Seq<EntryView>, k: Seq<char>)
    ensures
        lookup(s, k) is Some <==> exists|i: int| 0 <= i < s.len() && #[trigger] s[i].0 == k,
        lookup(s, k) is Some ==> exists|i: int|
            0 <= i < s.len() && s[i].0 == k && #[trigger] s[i].1 == lookup(s, k)->Some_0,
    decreases s.len(),
{
    if s.len() > 0 {
        lemma_lookup_some(s.drop_last(), k);
        if s.last().0 != k {
            if exists|i: int| 0 <= i < s.len() && #[trigger] s[i].0 == k {
                let i = choose|i: int| 0 <= i < s.len() && #[trigger] s[i].0 == k;
                assert(s.drop_last()[i].0 == k);
            }
            if lookup(s, k) is Some {
                let i = choose|i: int|
                    0 <= i < s.drop_last().len() && s.drop_last()[i].0 == k
                        && #[trigger] s.drop_last()[i].1 == lookup(s, k)->Some_0;
                assert(s[i] == s.drop_last()[i]);
            }
        } else {
            assert(s[s.len() - 1].0 == k);
        }
    }
}

/// With unique paths, the entry at `i` is what the lookup of its path finds.
pub proof fn lemma_lookup_at(s: Seq<EntryView>, i: int)
    requires
        unique_keys(s),
        0 <= i < s.len(),
    ensures
        lookup(s, s[i].0) == Some(s[i].1),
    decreases s.len(),
{
    if i < s.len() - 1 {
        assert(s[i].0 != s[s.len() - 1].0);
        assert(s.drop_last()[i] == s[i]);
        lemma_lookup_at(s.drop_last(), i);
    }
}

pub proof fn lemma_lookup_push(s: Seq<EntryView>, e: EntryView, k: Seq<char>)
    ensures
        lookup(s.push(e), k) == if e.0 == k {
            Some(e.1)
        } else {
            lookup(s, k)
        },
{
    assert(s.push(e).drop_last() =~= s);
}

pub proof fn lemma_lookup_update(s: Seq<EntryView>, i: int, e: EntryView, k: Seq<char>)
    requires
        unique_keys(s),
        0 <= i < s.len(),
        s[i].0 == e.0,
    ensures
        lookup(s.update(i, e), k) == if e.0 == k {
            Some(e.1)
        } else {
            lookup(s, k)
        },
    decreases s.len(),
{
    let t = s.update(i, e);
    if i == s.len() - 1 {
        assert(t.drop_last() =~= s.drop_last());
    } else {
        assert(t.drop_last() =~= s.drop_last().update(i, e));
        assert(s[i].0 != s[s.len() - 1].0);
        lemma_lookup_update(s.drop_last(), i, e, k);
    }
}

/// With unique paths, an entry survives a retain exactly when its flag is set,
/// and a surviving entry keeps its weight.
pub proof fn lemma_kept_lookup(s: Seq<EntryView>, keep: Seq<bool>, k: Seq<char>)
    requires
        unique_keys(s),
        keep.len() == s.len(),
    ensures
        unique_keys(kept(s, keep)),
        lookup(kept(s, keep), k) == (if exists|i: int|
            0 <= i < s.len() && s[i].0 == k && #[trigger] keep[i] {
            lookup(s, k)
        } else {
            None
        }),
    decreases s.len(),
{
    if s.len() > 0 {
        let s0 = s.drop_last();
        let k0 = keep.drop_last();
        assert(unique_keys(s0));
        lemma_kept_lookup(s0, k0, k);
        lemma_kept_subset(s0, k0);
        let r0 = kept(s0, k0);
        if keep.last() {
            assert forall|a: int, b: int| 0 <= a < b < r0.push(s.last()).len() implies
                #[trigger] r0.push(s.last())[a].0 != #[trigger] r0.push(s.last())[b].0 by {
                if b == r0.len() {
                    assert(s0.contains(r0[a]));
                    let j = choose|j: int| 0 <= j < s0.len() && s0[j] == r0[a];
                    assert(s[j] == s0[j]);
                }
            }
            lemma_lookup_push(r0, s.last(), k);
        }
        if exists|i: int| 0 <= i < s.len() && s[i].0 == k && #[trigger] keep[i] {
            let i = choose|i: int| 0 <= i < s.len() && s[i].0 == k && #[trigger] keep[i];
            if i < s.len() - 1 {
                assert(s0[i].0 == k && k0[i]);
                assert(s[i].0 != s[s.len() - 1].0);
            }
        } else {
            assert forall|i: int| 0 <= i < s0.len() && s0[i].0 == k implies !#[trigger] k0[i] by {
                assert(s[i] == s0[i]);
                assert(keep[i] == k0[i]);
            }
            if s.last().0 == k {
                assert(!keep[s.len() - 1]);
            }
        }
    }
}

/// Every entry that survives a retain was in the store.
pub proof fn lemma_kept_subset(s: Seq<EntryView>, keep: Seq<bool>)
    ensures
        forall|a: int| 0 <= a < kept(s, keep).len() ==> s.contains(#[trigger] kept(s, keep)[a]),
    decreases s.len(),
{
    if s.len() > 0 && keep.len() == s.len() {
        let s0 = s.drop_last();
        let k0 = keep.drop_last();
        lemma_kept_subset(s0, k0);
        let r = kept(s, keep);
        assert forall|a: int| 0 <= a < r.len() implies s.contains(#[trigger] r[a]) by {
            if a < kept(s0, k0).len() {
                assert(r[a] == kept(s0, k0)[a]);
                assert(s0.contains(kept(s0, k0)[a]));
                let j = choose|j: int| 0 <= j < s0.len() && s0[j] == kept(s0, k0)[a];
                assert(s[j] == s0[j]);
            } else {
                assert(r[a] == s[s.len() - 1]);
            }
        }
    }
}

/// The byte form of a sequence of entries in bincode's default encoding: a
/// count, then for each entry its path as length and UTF-8 bytes, then its
/// weight's four bytes. A map from path to `f32` has the same form.
pub uninterp spec fn bincode_of(entries: Seq<(Seq<char>, u32)>) -> Seq<u8>;

/// `bytes` begin with the encoding of `v`; what follows it is not read.
pub open spec fn encodes(bytes: Seq<u8>, v: Seq<EntryView>) -> bool {
    bincode_of(v).len() <= bytes.len() && bytes.take(bincode_of(v).len() as int) == bincode_of(v)
}

/// Relies on `bincode::serialize`, which writes `entries` in bincode's default
/// encoding. It writes into a growing `Vec` with no size limit, and strings
/// and integers always serialize, so it does not fail.
#[verifier::external_body]
fn encode_entries(entries: &Vec<Entry>) -> (r: Option<Vec<u8>>)
    ensures
        r is Some,
        r matches Some(b) ==> b@ == bincode_of(entries_view(entries@)),
{
    bincode::serialize(entries).ok()
}

/// Relies on `bincode::deserialize`, the inverse of `bincode::serialize`:
/// it reads one encoding from the front of `bytes` (trailing bytes are
/// allowed) and fails where the front is no encoding of entries.
#[verifier::external_body]
fn decode_entries(bytes: &Vec<u8>) -> (r: Option<Vec<Entry>>)
    ensures
        r is Some <==> exists|v: Seq<EntryView>| #[trigger] encodes(bytes@, v),
        forall|v: Seq<EntryView>|
            #[trigger] encodes(bytes@, v) ==> r is Some && entries_view(r->Some_0@) == v,
{
    bincode::deserialize(bytes.as_slice()).ok()
}

/// Relies on std's `Path::exists`: whether the path names something on
/// disk now. Nothing is promised of the answer.
#[verifier::external_body]
pub(crate) fn path_exists(p: &String) -> (r: bool) {
    std::path::Path::new(p.as_str()).exists()
}

/// `d` holds what `bytes` store: where they begin with the encoding of some
/// entries, `d` gives each path the weight of its last entry there.
pub open spec fn read_back(bytes: Seq<u8>, d: Database) -> bool {
    forall|v: Seq<EntryView>|
        #[trigger] encodes(bytes, v) ==> forall|k: Seq<char>|
            #[trigger] d.weight_of(k) == lookup(v, k)
}

/// Saving and loading keep the table: the store read back from the bytes
/// of a store gives every path the weight it had, and holds no other path.
pub proof fn lemma_round_trip(d: Database, back: Database)
    requires
        d.wf(),
        read_back(bincode_of(d@), back),
    ensures
        forall|k: Seq<char>| #[trigger] back.weight_of(k) == d.weight_of(k),
{
    assert(bincode_of(d@).take(bincode_of(d@).len() as int) =~= bincode_of(d@));
    assert(encodes(bincode_of(d@), d@));
}

/// Why the store could not be read or written.
#[derive(Debug, Clone, Copy, PartialEq, Eq, Structural)]
pub enum StoreError {
    /// The stored bytes do not decode to a table.
    Corrupt,
}

/// How to obtain the store at start-up.
#[derive(Debug, Clone, Copy, PartialEq, Eq, Structural)]
pub enum LoadStep {
    /// Read the primary file.
    ReadPrimary,
    /// Move the backup file over the primary file, then read it.
    PromoteBackup,
    /// Neither file is there: start with an empty store.
    StartEmpty,
}

/// Seconds after which the backup file is refreshed (24 hours).
pub const BACKUP_THRESHOLD: u64 = 86400;

/// The step that loading takes, given which files exist.
pub fn load_step(primary_exists: bool, backup_exists: bool) -> (r: LoadStep)
    ensures
        primary_exists ==> r == LoadStep::ReadPrimary,
        !primary_exists && backup_exists ==> r == LoadStep::PromoteBackup,
        !primary_exists && !backup_exists ==> r == LoadStep::StartEmpty,
{
    if primary_exists {
        LoadStep::ReadPrimary
    } else if backup_exists {
        LoadStep::PromoteBackup
    } else {
        LoadStep::StartEmpty
    }
}

/// Whether a save copies the primary file over the backup: when there is no
/// backup (`None`), or it is older than the threshold.
pub fn backup_due(backup_age_secs: Option<u64>) -> (r: bool)
    ensures
        r == match backup_age_secs {
            None => true,
            Some(age) => age > BACKUP_THRESHOLD,
        },
{
    match backup_age_secs {
        None => true,
        Some(age) => age > BACKUP_THRESHOLD,
    }
}

/// The table from path to weight.
pub struct Database {
    data: Vec<Entry>,
}

impl View for Database {
    type V = Seq<EntryView>;

    closed spec fn view(&self) -> Seq<EntryView> {
        entries_view(self.data@)
    }
}

impl Database {
    /// Paths are unique in the store.
    pub open spec fn wf(&self) -> bool {
        unique_keys(self@)
    }

    /// The weight the store holds for `k`, if any.
    pub open spec fn weight_of(&self, k: Seq<char>) -> Option<u32> {
        lookup(self@, k)
    }

    /// An empty store.
    pub fn empty() -> (r: Database)
        ensures
            r.wf(),
            r@.len() == 0,
    {
        let r = Database { data: Vec::new() };
        assert(r@ =~= Seq::<EntryView>::empty());
        r
    }

    /// A store that holds, for each path of `entries`, the weight of its
    /// last entry.
    pub fn from_entries(entries: Vec<Entry>) -> (r: Database)
        ensures
            r.wf(),
            forall|k: Seq<char>| #[trigger] r.weight_of(k) == lookup(entries_view(entries@), k),
    {
        let mut r = Database::empty();
        let mut i: usize = 0;
        while i < entries.len()
            invariant
                i <= entries@.len(),
                r.wf(),
                forall|k: Seq<char>|
                    #[trigger] r.weight_of(k) == lookup(
                        entries_view(entries@).take(i as int),
                        k,
                    ),
            decreases entries.len() - i,
        {
            let e = &entries[i];
            r.upsert(e.0.clone(), e.1);
            proof {
                let ev = entries_view(entries@);
                assert(ev.take(i + 1) =~= ev.take(i as int).push(ev[i as int]));
                assert forall|k: Seq<char>| #[trigger]
                    r.weight_of(k) == lookup(ev.take(i + 1), k) by {
                    lemma_lookup_push(ev.take(i as int), ev[i as int], k);
                }
            }
            i += 1;
        }
        proof {
            assert(entries_view(entries@).take(entries@.len() as int) =~= entries_view(
                entries@,
            ));
        }
        r
    }

    /// The entries, in the store's order.
    pub fn entries(&self) -> (r: &Vec<Entry>)
        ensures
            entries_view(r@) == self@,
    {
        &self.data
    }

    /// Number of entries.
    pub fn len(&self) -> (r: usize)
        ensures
            r == self@.len(),
    {
        self.data.len()
    }

    /// The path of the entry at `i`.
    pub fn path_at(&self, i: usize) -> (r: &String)
        requires
            i < self@.len(),
        ensures
            r@ == self@[i as int].0,
    {
        &self.data[i].0
    }

    /// The weight of the entry at `i`.
    pub fn weight_at(&self, i: usize) -> (r: u32)
        requires
            i < self@.len(),
        ensures
            r == self@[i as int].1,
    {
        self.data[i].1
    }

    fn find(&self, k: &String) -> (r: Option<usize>)
        ensures
            match r {
                Some(i) => i < self@.len() && self@[i as int].0 == k@,
                None => forall|j: int| 0 <= j < self@.len() ==> #[trigger] self@[j].0 != k@,
            },
    {
        let mut i: usize = 0;
        while i < self.data.len()
            invariant
                i <= self@.len(),
                forall|j: int| 0 <= j < i ==> #[trigger] self@[j].0 != k@,
            decreases self.data.len() - i,
        {
            if self.data[i].0 == *k {
                return Some(i);
            }
            i += 1;
        }
        None
    }

    /// The weight of `k`, or zero where the store does not hold it.
    pub fn get(&self, k: &String) -> (r: u32)
        requires
            self.wf(),
        ensures
            r == match self.weight_of(k@) {
                Some(w) => w,
                None => ZERO_WEIGHT,
            },
    {
        match self.find(k) {
            Some(i) => {
                proof {
                    lemma_lookup_at(self@, i as int);
                }
                self.data[i].1
            },
            None => {
                proof {
                    lemma_lookup_some(self@, k@);
                }
                ZERO_WEIGHT
            },
        }
    }

    /// Sets the weight of `k`, adding the path where the store lacks it.
    pub fn upsert(&mut self, k: String, w: u32)
        requires
            old(self).wf(),
        ensures
            final(self).wf(),
            forall|p: Seq<char>| #[trigger]
                final(self).weight_of(p) == if p == k@ {
                    Some(w)
                } else {
                    old(self).weight_of(p)
                },
    {
        match self.find(&k) {
            Some(i) => {
                let ghost s = self@;
                let ghost kv = k@;
                self.data.set(i, (k, w));
                proof {
                    assert(self@ =~= s.update(i as int, (kv, w)));
                    assert forall|p: Seq<char>| #[trigger]
                        self.weight_of(p) == if p == kv {
                            Some(w)
                        } else {
                            lookup(s, p)
                        } by {
                        lemma_lookup_update(s, i as int, (kv, w), p);
                    }
                }
            },
            None => {
                let ghost s = self@;
                let ghost kv = k@;
                self.data.push((k, w));
                proof {
                    assert(self@ =~= s.push((kv, w)));
                    assert forall|p: Seq<char>| #[trigger]
                        self.weight_of(p) == if p == kv {
                            Some(w)
                        } else {
                            lookup(s, p)
                        } by {
                        lemma_lookup_push(s, (kv, w), p);
                    }
                }
            },
        }
    }

    /// Keeps the entries whose flag in `keep` is set and removes the others;
    /// returns how many were removed.
    pub fn retain(&mut self, keep: &Vec<bool>) -> (r: usize)
        requires
            old(self).wf(),
            keep@.len() == old(self)@.len(),
        ensures
            final(self).wf(),
            final(self)@ == kept(old(self)@, keep@),
            r == old(self)@.len() - final(self)@.len(),
            forall|k: Seq<char>| #[trigger]
                final(self).weight_of(k) == (if exists|i: int|
                    0 <= i < keep@.len() && old(self)@[i].0 == k && #[trigger] keep@[i] {
                    old(self).weight_of(k)
                } else {
                    None
                }),
    {
        let ghost s = self@;
        let mut out: Vec<Entry> = Vec::new();
        let n = self.data.len();
        let mut i: usize = 0;
        while i < n
            invariant
                n == s.len(),
                n == self.data@.len(),
                s == entries_view(self.data@),
                keep@.len() == n,
                i <= n,
                entries_view(out@) == kept(s.take(i as int), keep@.take(i as int)),
                out@.len() <= i,
            decreases n - i,
        {
            proof {
                assert(s.take(i + 1).drop_last() =~= s.take(i as int));
                assert(keep@.take(i + 1).drop_last() =~= keep@.take(i as int));
            }
            if keep[i] {
                out.push((self.data[i].0.clone(), self.data[i].1));
                proof {
                    assert(entries_view(out@) =~= kept(s.take(i as int), keep@.take(i as int)).push(s[i as int]));
                }
            }
            i += 1;
        }
        proof {
            assert(s.take(n as int) =~= s);
            assert(keep@.take(n as int) =~= keep@);
            assert forall|k: Seq<char>| #[trigger]
                lookup(kept(s, keep@), k) == (if exists|i: int|
                    0 <= i < keep@.len() && s[i].0 == k && #[trigger] keep@[i] {
                    lookup(s, k)
                } else {
                    None
                }) by {
                lemma_kept_lookup(s, keep@, k);
            }
            lemma_kept_lookup(s, keep@, Seq::empty());
        }
        self.data = out;
        n - self.data.len()
    }

    /// The bytes that store this table.
    pub fn to_bytes(&self) -> (r: Vec<u8>)
        ensures
            r@ == bincode_of(self@),
    {
        match encode_entries(&self.data) {
            Some(b) => b,
            None => Vec::new(),
        }
    }

    /// The table that `bytes` store. Bytes written by `to_bytes` read back
    /// as a table with the same weight for every path; bytes that do not
    /// begin with an encoded table are refused as corrupt.
    pub fn from_bytes(bytes: &Vec<u8>) -> (r: Result<Database, StoreError>)
        ensures
            r is Ok <==> exists|v: Seq<EntryView>| #[trigger] encodes(bytes@, v),
            r matches Ok(d) ==> d.wf() && read_back(bytes@, d),
            r matches Err(e) ==> e == StoreError::Corrupt,
            forall|v: Seq<EntryView>| #[trigger] encodes(bytes@, v) ==> r is Ok,
    {
        match decode_entries(bytes) {
            Some(entries) => Ok(Database::from_entries(entries)),
            None => Err(StoreError::Corrupt),
        }
    }

    /// Removes the entries whose path no longer exists on disk; returns how
    /// many were removed. The others keep their weights.
    pub fn purge(&mut self) -> (r: usize)
        requires
            old(self).wf(),
        ensures
            final(self).wf(),
            r == old(self)@.len() - final(self)@.len(),
            exists|keep: Seq<bool>|
                keep.len() == old(self)@.len() && final(self)@ == #[trigger] kept(
                    old(self)@,
                    keep,
                ),
    {
        let mut keep: Vec<bool> = Vec::new();
        let mut i: usize = 0;
        while i < self.data.len()
            invariant
                i <= self@.len(),
                keep@.len() == i,
            decreases self.data.len() - i,
        {
            keep.push(path_exists(&self.data[i].0));
            i += 1;
        }
        let ghost before = self@;
        let r = self.retain(&keep);
        proof {
            assert(keep@.len() == before.len() && self@ == kept(before, keep@));
        }
        r
    }
}

} // verus!
