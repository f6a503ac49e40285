use journal_store::date::JournalDate;
use journal_store::entry::JournalEntry;
use journal_store::store::JournalStore;

fn day(y: i32, m: u32, d: u32) -> JournalDate {
    JournalDate::from_ymd(y, m, d).unwrap()
}

fn entry(account: u32, debt: i64, credit: i64) -> JournalEntry {
    JournalEntry::new(day(2024, 1, 5), account, debt, credit, false)
}

#[test]
fn add_assigns_first_id_and_total() {
    let mut s = JournalStore::new();
    let id = s.add_entry(entry(10, 100, 40));
    assert_eq!(id, 1);
    let e = s.get_entry(1).unwrap();
    assert_eq!(e.id, 1);
    assert_eq!(e.total, 60);
    assert!(!e.is_deleted);
    assert_eq!(e.journal_date, day(2024, 1, 5));
    assert_eq!(e.account_id, 10);
}

#[test]
fn delete_then_add_does_not_reuse_id() {
    let mut s = JournalStore::new();
    s.add_entry(entry(10, 100, 40));
    assert!(s.delete_entry(1));
    assert!(s.get_entry(1).is_none());
    assert!(s.list_entries().is_empty());
    let id = s.add_entry(entry(11, 5, 5));
    assert_eq!(id, 2);
    assert_eq!(s.next_id(), 3);
    assert_eq!(s.records().len(), 2);
}

#[test]
fn update_recomputes_total_and_clears_tombstone() {
    let mut s = JournalStore::new();
    s.add_entry(entry(10, 100, 40));
    s.add_entry(entry(11, 7, 3));
    let mut replacement = entry(12, 50, 50);
    replacement.id = 99;
    replacement.total = 12345;
    replacement.is_deleted = true;
    assert!(s.update_entry(2, replacement));
    let e = s.get_entry(2).unwrap();
    assert_eq!(e.id, 2);
    assert_eq!(e.total, 0);
    assert!(!e.is_deleted);
    assert_eq!(e.account_id, 12);
    assert!(s.get_entry(99).is_none());
}

#[test]
fn caller_total_is_ignored_on_add() {
    let mut s = JournalStore::new();
    let mut e = entry(1, -250, 1000);
    e.total = 7;
    s.add_entry(e);
    assert_eq!(s.get_entry(1).unwrap().total, -1250);
}

#[test]
fn extreme_amounts_give_exact_total() {
    let mut s = JournalStore::new();
    s.add_entry(entry(1, i64::MAX, i64::MIN));
    assert_eq!(s.get_entry(1).unwrap().total, i64::MAX as i128 - i64::MIN as i128);
}

#[test]
fn update_of_deleted_id_fails_and_changes_nothing() {
    let mut s = JournalStore::new();
    s.add_entry(entry(10, 100, 40));
    s.add_entry(entry(11, 1, 2));
    assert!(s.delete_entry(1));
    let before = s.records().clone();
    let listed = s.list_entries();
    assert!(!s.update_entry(1, entry(20, 1, 1)));
    assert!(!s.update_entry(42, entry(20, 1, 1)));
    assert_eq!(s.records(), &before);
    assert_eq!(s.list_entries(), listed);
    assert!(s.get_entry(1).is_none());
    assert_eq!(s.next_id(), 3);
}

#[test]
fn second_delete_reports_failure() {
    let mut s = JournalStore::new();
    s.add_entry(entry(10, 100, 40));
    assert!(s.delete_entry(1));
    assert!(!s.delete_entry(1));
    assert!(s.records()[0].is_deleted);
}

#[test]
fn deleted_entry_stays_hidden_after_later_calls() {
    let mut s = JournalStore::new();
    s.add_entry(entry(1, 1, 0));
    s.add_entry(entry(2, 2, 0));
    assert!(s.delete_entry(1));
    s.add_entry(entry(3, 3, 0));
    assert!(s.update_entry(2, entry(4, 4, 0)));
    assert!(!s.update_entry(1, entry(5, 5, 0)));
    assert!(s.get_entry(1).is_none());
    let ids: Vec<u32> = s.list_entries().iter().map(|e| e.id).collect();
    assert_eq!(ids, vec![2, 3]);
}

#[test]
fn ids_increase_across_updates_and_deletes() {
    let mut s = JournalStore::new();
    let a = s.add_entry(entry(1, 0, 0));
    assert!(s.delete_entry(a));
    let b = s.add_entry(entry(1, 0, 0));
    assert!(s.update_entry(b, entry(2, 1, 0)));
    let c = s.add_entry(entry(1, 0, 0));
    assert_eq!((a, b, c), (1, 2, 3));
}

#[test]
fn list_keeps_insertion_order() {
    let mut s = JournalStore::new();
    for k in 0..5u32 {
        s.add_entry(entry(k, k as i64, 0));
    }
    assert!(s.delete_entry(3));
    let ids: Vec<u32> = s.list_entries().iter().map(|e| e.id).collect();
    assert_eq!(ids, vec![1, 2, 4, 5]);
}

#[test]
fn reload_gives_same_list_and_next_id() {
    let mut s = JournalStore::new();
    s.add_entry(entry(1, 10, 0));
    s.add_entry(entry(2, 20, 0));
    s.add_entry(entry(3, 30, 0));
    assert!(s.delete_entry(3));
    let saved: Vec<Option<JournalEntry>> = s.records().iter().map(|e| Some(*e)).collect();
    let fresh = JournalStore::load(saved);
    assert_eq!(fresh.list_entries(), s.list_entries());
    assert_eq!(fresh.next_id(), s.next_id());
    assert_eq!(fresh.next_id(), 4);
}

#[test]
fn load_skips_records_that_did_not_decode() {
    let good = entry(10, 100, 40).stamp(1);
    let fresh = JournalStore::load(vec![Some(good), None]);
    assert_eq!(fresh.records().len(), 1);
    assert_eq!(fresh.list_entries(), vec![good]);
    assert_eq!(fresh.next_id(), 2);
}

#[test]
fn load_of_nothing_starts_at_one() {
    let fresh = JournalStore::load(Vec::new());
    assert_eq!(fresh.next_id(), 1);
    assert!(fresh.list_entries().is_empty());
}

#[test]
fn load_takes_next_id_from_largest_id_and_keeps_duplicates() {
    let a = entry(1, 1, 0).stamp(7);
    let b = entry(2, 2, 0).stamp(3);
    let c = entry(3, 3, 0).stamp(7);
    let fresh = JournalStore::load(vec![Some(a), None, Some(b), Some(c)]);
    assert_eq!(fresh.next_id(), 8);
    assert_eq!(fresh.records().len(), 3);
    assert_eq!(fresh.get_entry(7).unwrap().account_id, 1);
}

#[test]
fn load_keeps_deleted_records_hidden() {
    let mut gone = entry(1, 1, 0).stamp(5);
    gone.is_deleted = true;
    let fresh = JournalStore::load(vec![Some(gone)]);
    assert!(fresh.get_entry(5).is_none());
    assert!(fresh.list_entries().is_empty());
    assert_eq!(fresh.next_id(), 6);
}
