use squealmate::entries::{EntryStatus, ListEntry};
use squealmate::runner::{entry_status, entry_status_with, prepare_script};
use squealmate::script_memory::ScriptDatabase;

#[test]
fn status_for_each_kind_of_record() {
    let mut db = ScriptDatabase::new();
    assert_eq!(EntryStatus::NeverStarted, db.get_file_status("a.sql", 7));
    db.insert("a.sql".to_string(), 7, true);
    db.insert("b.sql".to_string(), 9, false);
    assert_eq!(EntryStatus::Finished(true), db.get_file_status("a.sql", 7));
    assert_eq!(EntryStatus::Finished(false), db.get_file_status("b.sql", 9));
    assert_eq!(EntryStatus::Changed, db.get_file_status("a.sql", 8));
    assert_eq!(EntryStatus::NeverStarted, db.get_file_status("c.sql", 7));
    db.insert_unreadable("c.sql".to_string());
    assert_eq!(EntryStatus::Unknown, db.get_file_status("c.sql", 7));
}

#[test]
fn upsert_overwrites_the_one_record() {
    let mut db = ScriptDatabase::new();
    db.insert("a.sql".to_string(), 1, false);
    db.insert("a.sql".to_string(), 2, true);
    assert_eq!(EntryStatus::Finished(true), db.get_file_status("a.sql", 2));
    assert_eq!(EntryStatus::Changed, db.get_file_status("a.sql", 1));
}

#[test]
fn reloaded_history_reproduces_the_outcome() {
    let content = "SELECT 1\nGO\nSELECT 2";
    let crc = prepare_script(content).checksum;
    let mut first = ScriptDatabase::new();
    first.insert("s.sql".to_string(), crc, false);
    let rows = vec![("s.sql".to_string(), crc, false)];
    let mut reopened = ScriptDatabase::new();
    for (name, crc, result) in rows {
        reopened.insert(name, crc, result);
    }
    let again = prepare_script(content).checksum;
    assert_eq!(first.get_file_status("s.sql", again), reopened.get_file_status("s.sql", again));
    assert_eq!(EntryStatus::Finished(false), reopened.get_file_status("s.sql", again));
}

fn entry(path: &str, is_directory: bool) -> ListEntry {
    ListEntry {
        relative_path: path.to_string(),
        name: path.to_string(),
        selected: false,
        is_directory,
        status: EntryStatus::Unknown,
    }
}

#[test]
fn listed_entry_status() {
    let mut db = ScriptDatabase::new();
    let content = "SELECT 1";
    db.insert("a.sql".to_string(), prepare_script(content).checksum, true);
    assert_eq!(EntryStatus::Finished(true), entry_status(&db, &entry("a.sql", false), content));
    assert_eq!(EntryStatus::Changed, entry_status(&db, &entry("a.sql", false), "SELECT 2"));
    assert_eq!(EntryStatus::Directory, entry_status(&db, &entry("dir", true), ""));
    assert_eq!(EntryStatus::NeverStarted, entry_status_with(&db, &entry("b.sql", false), 1));
}
