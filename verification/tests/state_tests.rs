use data_dealer::state::Action;
use data_dealer::state::Entry;
use data_dealer::state::State;

fn entry(key: &str, value: &str) -> Entry {
    Entry { key: String::from(key), value: String::from(value) }
}

fn state_of(pairs: &[(&str, &str)]) -> State {
    let mut st = State::empty();
    for (k, v) in pairs {
        st.add(String::from(*k), String::from(*v));
    }
    st
}

#[test]
fn add_inserts_new_entry() {
    let mut st = State::empty();
    st.add(String::from("apple"), String::from("red"));
    assert_eq!(st.rows_by_id, vec![entry("apple", "red")]);
}

#[test]
fn add_overwrites_existing_key() {
    let mut st = state_of(&[("apple", "red"), ("banana", "yellow")]);
    st.add(String::from("apple"), String::from("green"));
    assert_eq!(st.rows_by_id, vec![entry("banana", "yellow"), entry("apple", "green")]);
}

#[test]
fn remove_deletes_entry() {
    let mut st = state_of(&[("apple", "red"), ("banana", "yellow")]);
    st.remove(String::from("apple"));
    assert_eq!(st.rows_by_id, vec![entry("banana", "yellow")]);
}

#[test]
fn remove_of_missing_key_is_noop() {
    let mut st = state_of(&[("apple", "red")]);
    st.remove(String::from("pear"));
    assert_eq!(st.rows_by_id, vec![entry("apple", "red")]);
}

#[test]
fn set_query_keeps_entries() {
    let mut st = state_of(&[("apple", "red")]);
    st.set_query(String::from("app"));
    assert_eq!(st.query, "app");
    assert_eq!(st.rows_by_id, vec![entry("apple", "red")]);
}

#[test]
fn update_reports_when_a_save_is_due() {
    let mut st = State::empty();
    assert!(!st.update(Action::SetQuery(String::from("q"))));
    assert!(st.update(Action::AddNewEntry(String::from("a"), String::from("1"))));
    assert!(st.update(Action::RemoveEntry(String::from("a"))));
}

#[test]
fn add_then_remove_restores_entries_with_two_saves() {
    let mut st = state_of(&[("apple", "red"), ("banana", "yellow")]);
    let before = state_of(&[("apple", "red"), ("banana", "yellow")]);
    let first = st.update(Action::AddNewEntry(String::from("cherry"), String::from("red")));
    let second = st.update(Action::RemoveEntry(String::from("cherry")));
    assert!(first);
    assert!(second);
    assert_eq!(st.rows_by_id, before.rows_by_id);
    assert_eq!(st.query, before.query);
}
