use vstd::prelude::*;
use crate::entry::{JournalEntry, stamped, is_live};

verus! {

/// What a store holds: its entries in append order, deleted ones included,
/// and the identifier that the next added entry receives.
pub struct StoreModel {
    pub entries: Seq<JournalEntry>,
    pub next_id: int,
}

/// Whether some visible entry of `s` has identifier `id`.
pub open spec fn has_live(s: Seq<JournalEntry>, id: u32) -> bool {
    exists|i: int| 0 <= i < s.len() && is_live(#[trigger] s[i], id)
}

/// Whether `i` is the position of the first visible entry of `s` with identifier `id`.
pub open spec fn first_live_at(s: Seq<JournalEntry>, id: u32, i: int) -> bool {
    &&& 0 <= i < s.len()
    &&& is_live(s[i], id)
    &&& forall|j: int| 0 <= j < i ==> !is_live(#[trigger] s[j], id)
}

/// The position of the first visible entry of `s` with identifier `id`.
pub open spec fn live_index(s: Seq<JournalEntry>, id: u32) -> int {
    choose|i: int| first_live_at(s, id, i)
}

/// The entries of `s` that are not deleted, in their order.
pub open spec fn visible(s: Seq<JournalEntry>) -> Seq<JournalEntry>
    decreases s.len(),
{
    if s.len() == 0 {
        Seq::empty()
    } else if s.last().is_deleted {
        visible(s.drop_last())
    } else {
        visible(s.drop_last()).push(s.last())
    }
}

/// The entries carried by the records that decoded, in record order.
pub open spec fn decoded(rs: Seq<Option<JournalEntry>>) -> Seq<JournalEntry>
    decreases rs.len(),
{
    if rs.len() == 0 {
        Seq::empty()
    } else {
        match rs.last() {
            Some(e) => decoded(rs.drop_last()).push(e),
            None => decoded(rs.drop_last()),
        }
    }
}

/// Whether `n` is one more than the largest identifier in `s`, or 1 where `s` is empty.
pub open spec fn follows_ids(s: Seq<JournalEntry>, n: int) -> bool {
    &&& forall|i: int| 0 <= i < s.len() ==> (#[trigger] s[i]).id < n
    &&& s.len() == 0 ==> n == 1
    &&& s.len() > 0 ==> exists|i: int| 0 <= i < s.len() && (#[trigger] s[i]).id + 1 == n
}

impl StoreModel {
    pub open spec fn wf(self) -> bool {
        follows_ids(self.entries, self.next_id)
    }

    /// Whether no two stored entries share an identifier.
    pub open spec fn ids_unique(self) -> bool {
        forall|i: int, j: int|
            0 <= i < self.entries.len() && 0 <= j < self.entries.len() && i != j
                ==> self.entries[i].id != self.entries[j].id
    }

    pub open spec fn with_added(self, e: JournalEntry) -> StoreModel {
        StoreModel {
            entries: self.entries.push(stamped(e, self.next_id as u32)),
            next_id: self.next_id + 1,
        }
    }

    pub open spec fn with_updated(self, id: u32, e: JournalEntry) -> StoreModel {
        if has_live(self.entries, id) {
            StoreModel {
                entries: self.entries.update(live_index(self.entries, id), stamped(e, id)),
                next_id: self.next_id,
            }
        } else {
            self
        }
    }

    pub open spec fn with_deleted(self, id: u32) -> StoreModel {
        if has_live(self.entries, id) {
            let i = live_index(self.entries, id);
            StoreModel {
                entries: self.entries.update(i, JournalEntry { is_deleted: true, ..self.entries[i] }),
                next_id: self.next_id,
            }
        } else {
            self
        }
    }

    /// What `get(id)` reports.
    pub open spec fn lookup(self, id: u32) -> Option<JournalEntry> {
        if has_live(self.entries, id) {
            Some(self.entries[live_index(self.entries, id)])
        } else {
            None
        }
    }
}

/// The store a fresh start has: no entries, next identifier 1.
pub open spec fn empty_model() -> StoreModel {
    StoreModel { entries: Seq::empty(), next_id: 1 }
}

/// The store that replaying the decoded records of a backing file gives.
pub open spec fn loaded_model(rs: Seq<Option<JournalEntry>>) -> StoreModel {
    let s = decoded(rs);
    StoreModel { entries: s, next_id: choose|n: int| follows_ids(s, n) }
}

/// The first visible entry with a given identifier sits at one position only.
pub proof fn lemma_first_live_unique(s: Seq<JournalEntry>, id: u32, i: int)
    requires
        first_live_at(s, id, i),
    ensures
        has_live(s, id),
        live_index(s, id) == i,
{
    assert(is_live(s[i], id));
    let k = live_index(s, id);
    assert(first_live_at(s, id, k));
    if k < i {
        assert(!is_live(s[k], id));
    } else if i < k {
        assert(!is_live(s[i], id));
    }
}

/// Where a visible entry with identifier `id` exists, `live_index` is the first one.
pub proof fn lemma_live_index(s: Seq<JournalEntry>, id: u32)
    requires
        has_live(s, id),
    ensures
        first_live_at(s, id, live_index(s, id)),
    decreases s.len(),
{
    let p = s.drop_last();
    if has_live(p, id) {
        lemma_live_index(p, id);
        let i = live_index(p, id);
        assert forall|j: int| 0 <= j < i implies !is_live(#[trigger] s[j], id) by {
            assert(s[j] == p[j]);
        }
        assert(s[i] == p[i]);
        lemma_first_live_unique(s, id, i);
    } else {
        let w = choose|i: int| 0 <= i < s.len() && is_live(#[trigger] s[i], id);
        if w < s.len() - 1 {
            assert(is_live(p[w], id));
        }
        assert forall|j: int| 0 <= j < s.len() - 1 implies !is_live(#[trigger] s[j], id) by {
            assert(s[j] == p[j]);
        }
        lemma_first_live_unique(s, id, s.len() - 1);
    }
}

/// One more than the largest identifier is one number only.
pub proof fn lemma_follows_ids_unique(s: Seq<JournalEntry>, a: int, b: int)
    requires
        follows_ids(s, a),
        follows_ids(s, b),
    ensures
        a == b,
{
    if s.len() > 0 {
        let i = choose|i: int| 0 <= i < s.len() && (#[trigger] s[i]).id + 1 == a;
        let j = choose|j: int| 0 <= j < s.len() && (#[trigger] s[j]).id + 1 == b;
        assert(s[i].id < b);
        assert(s[j].id < a);
    }
}

/// A sequence whose next identifier is `n` is what a load of it records.
pub proof fn lemma_loaded_next_id(rs: Seq<Option<JournalEntry>>, n: int)
    requires
        follows_ids(decoded(rs), n),
    ensures
        loaded_model(rs).next_id == n,
        loaded_model(rs).wf(),
{
    let m = choose|k: int| follows_ids(decoded(rs), k);
    lemma_follows_ids_unique(decoded(rs), m, n);
}

/// The journal store: entries in append order and the next identifier.
pub struct JournalStore {
    entries: Vec<JournalEntry>,
    next_id: u64,
}

impl View for JournalStore {
    type V = StoreModel;

    closed spec fn view(&self) -> StoreModel {
        StoreModel { entries: self.entries@, next_id: self.next_id as int }
    }
}

impl JournalStore {
    pub open spec fn wf(&self) -> bool {
        self@.wf()
    }

    /// A store with no entries whose first added entry gets identifier 1.
    pub fn new() -> (r: JournalStore)
        ensures
            r@ == empty_model(),
            r.wf(),
    {
        JournalStore { entries: Vec::new(), next_id: 1 }
    }

    /// Rebuilds a store from the records of a backing file, one per line, each
    /// already decoded or `None` where its line did not decode. Records that did
    /// not decode are skipped; the others are kept in order, unchecked, and the
    /// next identifier is one more than the largest one seen (1 if none).
    pub fn load(records: Vec<Option<JournalEntry>>) -> (r: JournalStore)
        ensures
            r@ == loaded_model(records@),
            r.wf(),
    {
        let mut entries: Vec<JournalEntry> = Vec::new();
        let mut next_id: u64 = 1;
        let mut i: usize = 0;
        while i < records.len()
            invariant
                0 <= i <= records@.len(),
                entries@ == decoded(records@.subrange(0, i as int)),
                follows_ids(entries@, next_id as int),
                1 <= next_id <= u32::MAX as u64 + 1,
            decreases records@.len() - i,
        {
            let ghost before = entries@;
            let ghost n0 = next_id as int;
            assert(records@.subrange(0, i + 1).drop_last() =~= records@.subrange(0, i as int));
            match records[i] {
                Some(e) => {
                    if e.id as u64 >= next_id {
                        next_id = e.id as u64 + 1;
                    }
                    entries.push(e);
                    proof {
                        let s = entries@;
                        assert(s[s.len() - 1] == e);
                        assert forall|k: int| 0 <= k < s.len() implies (#[trigger] s[k]).id < next_id by {
                            if k < s.len() - 1 {
                                assert(s[k] == before[k]);
                            }
                        }
                        if next_id as int == n0 {
                            if before.len() > 0 {
                                let j = choose|j: int| 0 <= j < before.len() && (#[trigger] before[j]).id + 1 == n0;
                                assert(s[j] == before[j]);
                            } else {
                                assert(e.id + 1 == n0);
                            }
                        } else {
                            assert(s[s.len() - 1].id + 1 == next_id);
                        }
                    }
                },
                None => {},
            }
            i = i + 1;
        }
        assert(records@.subrange(0, records@.len() as int) =~= records@);
        proof {
            lemma_loaded_next_id(records@, next_id as int);
        }
        JournalStore { entries, next_id }
    }

    /// The identifier that the next added entry receives.
    pub fn next_id(&self) -> (r: u64)
        ensures
            r as int == self@.next_id,
    {
        self.next_id
    }

    /// Every stored entry, deleted ones included, in append order: the records
    /// that a save writes, one per line.
    pub fn records(&self) -> (r: &Vec<JournalEntry>)
        ensures
            r@ == self@.entries,
    {
        &self.entries
    }

    /// Appends `entry` under the next identifier, with its total recomputed and
    /// its tombstone cleared, and returns that identifier.
    pub fn add_entry(&mut self, entry: JournalEntry) -> (r: u32)
        requires
            old(self).wf(),
            old(self)@.next_id <= u32::MAX,
        ensures
            final(self).wf(),
            final(self)@ == old(self)@.with_added(entry),
            r as int == old(self)@.next_id,
            final(self)@.entries.last() == stamped(entry, r),
            final(self)@.entries.last().total == entry.amount_debt - entry.amount_credit,
    {
        let id = self.next_id as u32;
        let ghost before = self.entries@;
        self.entries.push(entry.stamp(id));
        self.next_id = self.next_id + 1;
        proof {
            let s = self.entries@;
            assert forall|k: int| 0 <= k < s.len() implies (#[trigger] s[k]).id < self.next_id by {
                if k < s.len() - 1 {
                    assert(s[k] == before[k]);
                }
            }
            assert(s[s.len() - 1].id + 1 == self.next_id);
        }
        id
    }

    /// The position of the first visible entry with identifier `id`.
    fn find_live(&self, id: u32) -> (r: Option<usize>)
        ensures
            r is None <==> !has_live(self@.entries, id),
            r matches Some(i) ==> first_live_at(self@.entries, id, i as int),
    {
        let mut i: usize = 0;
        while i < self.entries.len()
            invariant
                0 <= i <= self.entries@.len(),
                forall|j: int| 0 <= j < i ==> !is_live(#[trigger] self.entries@[j], id),
            decreases self.entries@.len() - i,
        {
            let e = self.entries[i];
            if e.id == id && !e.is_deleted {
                return Some(i);
            }
            i = i + 1;
        }
        None
    }

    /// The visible entry with identifier `id`, or `None` where there is none.
    pub fn get_entry(&self, id: u32) -> (r: Option<JournalEntry>)
        ensures
            r == self@.lookup(id),
            r is None <==> !has_live(self@.entries, id),
            r matches Some(e) ==> e.id == id && !e.is_deleted,
    {
        match self.find_live(id) {
            Some(i) => {
                proof {
                    lemma_first_live_unique(self@.entries, id, i as int);
                }
                Some(self.entries[i])
            },
            None => None,
        }
    }

    /// The entries that are not deleted, in append order.
    pub fn list_entries(&self) -> (r: Vec<JournalEntry>)
        ensures
            r@ == visible(self@.entries),
    {
        let mut r: Vec<JournalEntry> = Vec::new();
        let mut i: usize = 0;
        while i < self.entries.len()
            invariant
                0 <= i <= self.entries@.len(),
                r@ == visible(self.entries@.subrange(0, i as int)),
            decreases self.entries@.len() - i,
        {
            assert(self.entries@.subrange(0, i + 1).drop_last() =~= self.entries@.subrange(0, i as int));
            let e = self.entries[i];
            if !e.is_deleted {
                r.push(e);
            }
            i = i + 1;
        }
        assert(self.entries@.subrange(0, self.entries@.len() as int) =~= self.entries@);
        r
    }

    /// Replaces the visible entry with identifier `id` by `updated`, keeping
    /// `id`, recomputing the total and clearing the tombstone. Where no visible
    /// entry has that identifier, returns `false` and changes nothing.
    pub fn update_entry(&mut self, id: u32, updated: JournalEntry) -> (r: bool)
        requires
            old(self).wf(),
        ensures
            final(self).wf(),
            r == has_live(old(self)@.entries, id),
            final(self)@ == old(self)@.with_updated(id, updated),
            !r ==> final(self)@ == old(self)@,
            r ==> final(self)@.lookup(id) == Some(stamped(updated, id)),
            r ==> final(self)@.entries[live_index(old(self)@.entries, id)].total
                == updated.amount_debt - updated.amount_credit,
    {
        match self.find_live(id) {
            Some(i) => {
                proof {
                    lemma_first_live_unique(self@.entries, id, i as int);
                }
                let ghost before = self.entries@;
                self.entries.set(i, updated.stamp(id));
                proof {
                    let s = self.entries@;
                    assert forall|k: int| 0 <= k < s.len() implies (#[trigger] s[k]).id < self.next_id by {
                        assert(s[k].id == before[k].id);
                    }
                    let j = choose|j: int| 0 <= j < before.len() && (#[trigger] before[j]).id + 1 == self.next_id;
                    assert(s[j].id == before[j].id);
                    assert forall|k: int| 0 <= k < i implies !is_live(#[trigger] s[k], id) by {
                        assert(s[k] == before[k]);
                    }
                    assert(first_live_at(s, id, i as int));
                    lemma_first_live_unique(s, id, i as int);
                }
                true
            },
            None => false,
        }
    }

    /// Marks the visible entry with identifier `id` deleted. Where no visible
    /// entry has that identifier, returns `false` and changes nothing.
    pub fn delete_entry(&mut self, id: u32) -> (r: bool)
        requires
            old(self).wf(),
        ensures
            final(self).wf(),
            r == has_live(old(self)@.entries, id),
            final(self)@ == old(self)@.with_deleted(id),
            !r ==> final(self)@ == old(self)@,
    {
        match self.find_live(id) {
            Some(i) => {
                proof {
                    lemma_first_live_unique(self@.entries, id, i as int);
                }
                let ghost before = self.entries@;
                let mut e = self.entries[i];
                e.is_deleted = true;
                self.entries.set(i, e);
                proof {
                    let s = self.entries@;
                    assert forall|k: int| 0 <= k < s.len() implies (#[trigger] s[k]).id < self.next_id by {
                        assert(s[k].id == before[k].id);
                    }
                    let j = choose|j: int| 0 <= j < before.len() && (#[trigger] before[j]).id + 1 == self.next_id;
                    assert(s[j].id == before[j].id);
                    assert(s =~= before.update(i as int, JournalEntry { is_deleted: true, ..before[i as int] }));
                }
                true
            },
            None => false,
        }
    }
}

} // verus!
