use vstd::prelude::*;
use crate::entry::{JournalEntry, stamped, is_live};
use crate::store::{
    StoreModel, has_live, first_live_at, live_index, visible, decoded, follows_ids, empty_model,
    loaded_model, lemma_loaded_next_id, lemma_live_index,
};

verus! {

/// One mutating call on a store.
#[derive(Clone, Copy, Debug)]
pub enum StoreOp {
    Add(JournalEntry),
    Update(u32, JournalEntry),
    Delete(u32),
}

/// The store after one call.
pub open spec fn applied(m: StoreModel, op: StoreOp) -> StoreModel {
    match op {
        StoreOp::Add(e) => m.with_added(e),
        StoreOp::Update(id, e) => m.with_updated(id, e),
        StoreOp::Delete(id) => m.with_deleted(id),
    }
}

/// The store after a sequence of calls, in order.
pub open spec fn replayed(m: StoreModel, ops: Seq<StoreOp>) -> StoreModel
    decreases ops.len(),
{
    if ops.len() == 0 {
        m
    } else {
        applied(replayed(m, ops.drop_last()), ops.last())
    }
}

/// The identifiers that the adds among a sequence of calls are given, in order.
pub open spec fn issued(m: StoreModel, ops: Seq<StoreOp>) -> Seq<int>
    decreases ops.len(),
{
    if ops.len() == 0 {
        Seq::empty()
    } else {
        let before = issued(m, ops.drop_last());
        match ops.last() {
            StoreOp::Add(_) => before.push(replayed(m, ops.drop_last()).next_id),
            _ => before,
        }
    }
}

proof fn lemma_issued_counts(ops: Seq<StoreOp>)
    ensures
        replayed(empty_model(), ops).next_id == 1 + issued(empty_model(), ops).len(),
        forall|k: int|
            0 <= k < issued(empty_model(), ops).len() ==> #[trigger] issued(empty_model(), ops)[k]
                == k + 1,
    decreases ops.len(),
{
    if ops.len() > 0 {
        lemma_issued_counts(ops.drop_last());
        let m = replayed(empty_model(), ops.drop_last());
        match ops.last() {
            StoreOp::Add(_) => {},
            StoreOp::Update(id, e) => {
                assert(applied(m, ops.last()).next_id == m.next_id);
            },
            StoreOp::Delete(id) => {
                assert(applied(m, ops.last()).next_id == m.next_id);
            },
        }
    }
}

/// Starting from an empty store, whatever updates and deletes come between
/// them, the adds are given the identifiers 1, 2, 3, ... in order: strictly
/// increasing, never reused.
pub proof fn lemma_ids_count_up(ops: Seq<StoreOp>)
    ensures
        forall|k: int|
            0 <= k < issued(empty_model(), ops).len() ==> #[trigger] issued(empty_model(), ops)[k]
                == k + 1,
{
    lemma_issued_counts(ops);
}

/// Every entry of the visible list is a stored entry that is not deleted.
proof fn lemma_visible_from(s: Seq<JournalEntry>)
    ensures
        forall|k: int|
            0 <= k < visible(s).len() ==> exists|j: int|
                0 <= j < s.len() && s[j] == #[trigger] visible(s)[k] && !s[j].is_deleted,
    decreases s.len(),
{
    if s.len() > 0 {
        let p = s.drop_last();
        lemma_visible_from(p);
        assert forall|k: int| 0 <= k < visible(s).len() implies exists|j: int|
            0 <= j < s.len() && s[j] == #[trigger] visible(s)[k] && !s[j].is_deleted by {
            if k < visible(p).len() {
                let j = choose|j: int| 0 <= j < p.len() && p[j] == visible(p)[k] && !p[j].is_deleted;
                assert(s[j] == p[j]);
            } else {
                assert(s[s.len() - 1] == visible(s)[k]);
            }
        }
    }
}

/// Whether `id` was given out and no visible entry carries it.
spec fn hidden(m: StoreModel, id: u32) -> bool {
    &&& m.wf()
    &&& !has_live(m.entries, id)
    &&& id < m.next_id
}

proof fn lemma_step_keeps_hidden(m: StoreModel, id: u32, op: StoreOp)
    requires
        hidden(m, id),
        m.next_id <= u32::MAX,
    ensures
        hidden(applied(m, op), id),
        applied(m, op).next_id <= m.next_id + 1,
{
    let s = m.entries;
    let n = applied(m, op);
    let t = n.entries;
    match op {
        StoreOp::Add(e) => {
            assert(t[t.len() - 1].id + 1 == n.next_id);
            assert forall|k: int| 0 <= k < t.len() implies (#[trigger] t[k]).id < n.next_id by {
                if k < s.len() {
                    assert(t[k] == s[k]);
                }
            }
            assert forall|k: int| 0 <= k < t.len() implies !is_live(#[trigger] t[k], id) by {
                if k < s.len() {
                    assert(t[k] == s[k]);
                }
            }
        },
        StoreOp::Update(id2, e) => {
            if has_live(s, id2) {
                let i = live_index(s, id2);
                lemma_live_index(s, id2);
                assert(t[i].id == s[i].id);
                assert forall|k: int| 0 <= k < t.len() implies (#[trigger] t[k]).id == s[k].id by {}
                assert forall|k: int| 0 <= k < t.len() implies !is_live(#[trigger] t[k], id) by {
                    if k != i {
                        assert(t[k] == s[k]);
                    }
                }
                let j = choose|j: int| 0 <= j < s.len() && (#[trigger] s[j]).id + 1 == m.next_id;
                assert(t[j].id == s[j].id);
            }
        },
        StoreOp::Delete(id2) => {
            if has_live(s, id2) {
                let i = live_index(s, id2);
                lemma_live_index(s, id2);
                assert forall|k: int| 0 <= k < t.len() implies (#[trigger] t[k]).id == s[k].id by {}
                assert forall|k: int| 0 <= k < t.len() implies !is_live(#[trigger] t[k], id) by {
                    if k != i {
                        assert(t[k] == s[k]);
                    }
                }
                let j = choose|j: int| 0 <= j < s.len() && (#[trigger] s[j]).id + 1 == m.next_id;
                assert(t[j].id == s[j].id);
            }
        },
    }
}

proof fn lemma_replay_keeps_hidden(m: StoreModel, id: u32, ops: Seq<StoreOp>)
    requires
        hidden(m, id),
        m.next_id + ops.len() <= u32::MAX + 1,
    ensures
        hidden(replayed(m, ops), id),
        replayed(m, ops).next_id <= m.next_id + ops.len(),
    decreases ops.len(),
{
    if ops.len() > 0 {
        lemma_replay_keeps_hidden(m, id, ops.drop_last());
        lemma_step_keeps_hidden(replayed(m, ops.drop_last()), id, ops.last());
    }
}

/// Once `delete(id)` has succeeded on a store whose identifiers are unique,
/// `get(id)` reports absence and the visible list leaves `id` out, after any
/// later sequence of adds, updates and deletes (while identifiers fit in `u32`).
pub proof fn lemma_deleted_stays_hidden(m: StoreModel, id: u32, ops: Seq<StoreOp>)
    requires
        m.wf(),
        m.ids_unique(),
        has_live(m.entries, id),
        m.next_id + ops.len() <= u32::MAX + 1,
    ensures
        replayed(m.with_deleted(id), ops).lookup(id) is None,
        forall|k: int|
            0 <= k < visible(replayed(m.with_deleted(id), ops).entries).len()
                ==> (#[trigger] visible(replayed(m.with_deleted(id), ops).entries)[k]).id != id,
{
    let s = m.entries;
    let i = live_index(s, id);
    lemma_live_index(s, id);
    let d = m.with_deleted(id);
    let t = d.entries;
    assert forall|k: int| 0 <= k < t.len() implies (#[trigger] t[k]).id == s[k].id by {}
    assert forall|k: int| 0 <= k < t.len() implies !is_live(#[trigger] t[k], id) by {
        if k != i {
            assert(t[k] == s[k]);
            assert(s[k].id != s[i].id);
        }
    }
    let j = choose|j: int| 0 <= j < s.len() && (#[trigger] s[j]).id + 1 == m.next_id;
    assert(t[j].id == s[j].id);
    assert(hidden(d, id));
    lemma_replay_keeps_hidden(d, id, ops);
    let after = replayed(d, ops);
    lemma_visible_from(after.entries);
    assert forall|k: int| 0 <= k < visible(after.entries).len() implies (#[trigger] visible(
        after.entries,
    )[k]).id != id by {
        let j = choose|j: int|
            0 <= j < after.entries.len() && after.entries[j] == visible(after.entries)[k]
                && !after.entries[j].is_deleted;
        assert(!is_live(after.entries[j], id));
    }
}

proof fn lemma_step_keeps_ids_unique(m: StoreModel, op: StoreOp)
    requires
        m.wf(),
        m.ids_unique(),
        m.next_id <= u32::MAX,
    ensures
        applied(m, op).wf(),
        applied(m, op).ids_unique(),
        applied(m, op).next_id <= m.next_id + 1,
{
    let s = m.entries;
    let n = applied(m, op);
    let t = n.entries;
    match op {
        StoreOp::Add(e) => {
            assert(t[t.len() - 1].id + 1 == n.next_id);
            assert forall|k: int| 0 <= k < s.len() implies #[trigger] t[k] == s[k] by {}
            assert forall|k: int| 0 <= k < t.len() implies (#[trigger] t[k]).id < n.next_id by {
                if k < s.len() {
                    assert(t[k] == s[k]);
                }
            }
        },
        StoreOp::Update(id2, e) => {
            if has_live(s, id2) {
                lemma_live_index(s, id2);
                assert forall|k: int| 0 <= k < t.len() implies (#[trigger] t[k]).id == s[k].id by {}
                let j = choose|j: int| 0 <= j < s.len() && (#[trigger] s[j]).id + 1 == m.next_id;
                assert(t[j].id == s[j].id);
            }
        },
        StoreOp::Delete(id2) => {
            if has_live(s, id2) {
                lemma_live_index(s, id2);
                assert forall|k: int| 0 <= k < t.len() implies (#[trigger] t[k]).id == s[k].id by {}
                let j = choose|j: int| 0 <= j < s.len() && (#[trigger] s[j]).id + 1 == m.next_id;
                assert(t[j].id == s[j].id);
            }
        },
    }
}

/// Adds, updates and deletes keep identifiers unique: a store that starts with
/// unique identifiers (an empty one does) keeps them, while they fit in `u32`.
pub proof fn lemma_ids_stay_unique(m: StoreModel, ops: Seq<StoreOp>)
    requires
        m.wf(),
        m.ids_unique(),
        m.next_id + ops.len() <= u32::MAX + 1,
    ensures
        replayed(m, ops).wf(),
        replayed(m, ops).ids_unique(),
        replayed(m, ops).next_id <= m.next_id + ops.len(),
    decreases ops.len(),
{
    if ops.len() > 0 {
        lemma_ids_stay_unique(m, ops.drop_last());
        lemma_step_keeps_ids_unique(replayed(m, ops.drop_last()), ops.last());
    }
}

/// The records a save writes: every stored entry, each one decoding.
pub open spec fn saved_records(m: StoreModel) -> Seq<Option<JournalEntry>> {
    m.entries.map_values(|e: JournalEntry| Some(e))
}

proof fn lemma_decoded_all(s: Seq<JournalEntry>)
    ensures
        decoded(s.map_values(|e: JournalEntry| Some(e))) == s,
    decreases s.len(),
{
    if s.len() > 0 {
        lemma_decoded_all(s.drop_last());
        assert(s.map_values(|e: JournalEntry| Some(e)).drop_last() =~= s.drop_last().map_values(
            |e: JournalEntry| Some(e),
        ));
        assert(s.drop_last().push(s.last()) =~= s);
    } else {
        assert(s.map_values(|e: JournalEntry| Some(e)) =~= Seq::<Option<JournalEntry>>::empty());
    }
}

/// Saving a store and loading a fresh one from what was saved gives back the
/// same entries, hence the same visible list, and the same next identifier.
pub proof fn lemma_reload_round_trip(m: StoreModel)
    requires
        m.wf(),
    ensures
        loaded_model(saved_records(m)).entries == m.entries,
        visible(loaded_model(saved_records(m)).entries) == visible(m.entries),
        loaded_model(saved_records(m)).next_id == m.next_id,
{
    lemma_decoded_all(m.entries);
    lemma_loaded_next_id(saved_records(m), m.next_id);
}

} // verus!
