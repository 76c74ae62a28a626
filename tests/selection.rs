use squealmate::entries::{EntryStatus, ListEntry};
use squealmate::selection::{AppState, Mark, Script, ScriptState};

fn paths(state: &AppState) -> Vec<String> {
    state.selected.iter().map(|s| s.relative_path.clone()).collect()
}

fn strings(v: &[&str]) -> Vec<String> {
    v.iter().map(|s| s.to_string()).collect()
}

#[test]
fn script_constructors() {
    let s = Script::none("a.sql");
    assert_eq!(ScriptState::Pending, s.state);
    assert_eq!(None, s.error);
    let e = Script::error("a.sql", "boom".to_string());
    assert_eq!(ScriptState::Error, e.state);
    assert_eq!(Some("boom".to_string()), e.error);
    let f = Script::finished("a.sql", 12);
    assert_eq!(ScriptState::Finished, f.state);
    assert_eq!(Some(12), f.elapsed);
}

#[test]
fn add_is_idempotent_and_sorted() {
    let mut state = AppState::new();
    state.add("b.sql".to_string());
    state.add("a.sql".to_string());
    state.add("b.sql".to_string());
    assert_eq!(strings(&["a.sql", "b.sql"]), paths(&state));
}

#[test]
fn add_many_skips_known_and_repeated_paths() {
    let mut state = AppState::new();
    state.add("b.sql".to_string());
    state.add_many(&strings(&["c.sql", "b.sql", "a.sql", "c.sql"]));
    assert_eq!(strings(&["a.sql", "b.sql", "c.sql"]), paths(&state));
}

#[test]
fn remove_and_remove_many() {
    let mut state = AppState::new();
    state.add_many(&strings(&["a.sql", "b.sql", "c.sql", "d.sql"]));
    state.remove("b.sql".to_string());
    assert_eq!(strings(&["a.sql", "c.sql", "d.sql"]), paths(&state));
    state.remove_many(&strings(&["a.sql", "d.sql", "x.sql"]));
    assert_eq!(strings(&["c.sql"]), paths(&state));
    state.clear();
    assert!(state.selected.is_empty());
}

#[test]
fn toggle_flips_one_path() {
    let mut state = AppState::new();
    state.toggle("a.sql".to_string());
    assert_eq!(strings(&["a.sql"]), paths(&state));
    state.toggle("a.sql".to_string());
    assert!(state.selected.is_empty());
}

#[test]
fn toggle_many_removes_all_when_any_is_selected() {
    let mut state = AppState::new();
    state.add_many(&strings(&["a.sql", "z.sql"]));
    state.toggle_many(&strings(&["a.sql", "b.sql", "c.sql"]));
    assert_eq!(strings(&["z.sql"]), paths(&state));
}

#[test]
fn toggle_many_adds_all_when_none_is_selected() {
    let mut state = AppState::new();
    state.add("z.sql".to_string());
    state.toggle_many(&strings(&["b.sql", "a.sql"]));
    assert_eq!(strings(&["a.sql", "b.sql", "z.sql"]), paths(&state));
}

#[test]
fn queue_order_is_state_then_path() {
    let mut state = AppState::new();
    state.add_many(&strings(&["a.sql", "b.sql", "c.sql", "d.sql"]));
    state.mark("c.sql", &Mark::Finished(5));
    state.mark("d.sql", &Mark::Failed("bad".to_string()));
    state.mark("b.sql", &Mark::Running);
    // marking does not move entries
    assert_eq!(strings(&["a.sql", "b.sql", "c.sql", "d.sql"]), paths(&state));
    state.add("e.sql".to_string());
    assert_eq!(strings(&["c.sql", "b.sql", "d.sql", "a.sql", "e.sql"]), paths(&state));
    assert_eq!("a.sql", state.first_runnable().unwrap().relative_path);
    assert_eq!(Some(3), state.first_runnable_index());
    assert_eq!(Some(5), state.selected[0].elapsed);
    assert_eq!(Some("bad".to_string()), state.selected[2].error.clone());
}

#[test]
fn mark_of_unknown_path_changes_nothing() {
    let mut state = AppState::new();
    state.add("a.sql".to_string());
    state.mark("gone.sql", &Mark::Running);
    assert_eq!(ScriptState::Pending, state.selected[0].state);
}

fn listed(path: &str, is_directory: bool) -> ListEntry {
    ListEntry {
        relative_path: path.to_string(),
        name: path.to_string(),
        selected: false,
        is_directory,
        status: EntryStatus::Unknown,
    }
}

#[test]
fn select_current_file_or_directory() {
    let mut state = AppState::new();
    state.select_current(&listed("a.sql", false), &[]);
    assert_eq!(strings(&["a.sql"]), paths(&state));
    let children = strings(&["d/x.sql", "d/y.sql"]);
    state.select_current(&listed("d", true), &children);
    assert_eq!(strings(&["a.sql", "d/x.sql", "d/y.sql"]), paths(&state));
    state.select_current(&listed("d", true), &children);
    assert_eq!(strings(&["a.sql"]), paths(&state));
    state.select_current(&listed("a.sql", false), &[]);
    assert!(state.selected.is_empty());
}

#[test]
fn unselect_current_file_or_directory() {
    let mut state = AppState::new();
    state.add_many(&strings(&["a.sql", "d/x.sql", "d/y.sql"]));
    state.unselect_current(&listed("d", true), &strings(&["d/x.sql", "d/y.sql"]));
    assert_eq!(strings(&["a.sql"]), paths(&state));
    state.unselect_current(&listed("a.sql", false), &[]);
    assert!(state.selected.is_empty());
}
