use data_dealer::rows::derive_rows;
use data_dealer::rows::RowVariant;
use data_dealer::snapshot::encode_snapshot;
use data_dealer::state::Action;
use data_dealer::state::Entry;
use data_dealer::state::State;
use data_dealer::store::can_add;
use data_dealer::store::ComponentProps;
use data_dealer::store::ComponentType;
use data_dealer::store::Store;
use data_dealer::store::StoreAction;

fn entry(key: &str, value: &str) -> Entry {
    Entry { key: String::from(key), value: String::from(value) }
}

fn state_of(pairs: &[(&str, &str)]) -> State {
    let mut st = State::empty();
    for (k, v) in pairs {
        st.add(String::from(*k), String::from(*v));
    }
    st
}

fn data(key: &str, value: &str) -> RowVariant {
    RowVariant::Data(String::from(key), String::from(value))
}

#[test]
fn subscribe_notifies_immediately() {
    let mut store = Store::new(state_of(&[("apple", "red"), ("banana", "yellow")]));
    let (binding, props) = store.subscribe(ComponentType::List(7));
    assert_eq!(binding, 7);
    assert_eq!(
        props,
        ComponentProps::List(vec![
            RowVariant::Heading('A'),
            data("apple", "red"),
            RowVariant::Heading('B'),
            data("banana", "yellow"),
        ])
    );
}

#[test]
fn subscribe_request_notifies_new_then_everyone() {
    let mut store = Store::new(state_of(&[("apple", "red")]));
    let first = store.update(StoreAction::Subscribe(ComponentType::AddButton(1)));
    assert!(first.save.is_none());
    // the new subscriber's immediate notification, then the full pass over
    // the registry, which now holds it too
    assert_eq!(first.notifications.len(), 2);
    assert_eq!(first.notifications[0], (1, ComponentProps::AddButton(false)));
    assert_eq!(first.notifications[1], (1, ComponentProps::AddButton(false)));
}

#[test]
fn mutation_saves_and_notifies_in_registration_order() {
    let mut store = Store::new(state_of(&[("apple", "red")]));
    store.subscribe(ComponentType::List(0));
    store.subscribe(ComponentType::AddButton(1));
    let out = store.update(StoreAction::StateUpdate(Action::AddNewEntry(
        String::from("banana"),
        String::from("yellow"),
    )));
    let expected_entries = vec![entry("apple", "red"), entry("banana", "yellow")];
    assert_eq!(out.save, Some(encode_snapshot(&expected_entries)));
    assert_eq!(out.notifications.len(), 2);
    assert_eq!(
        out.notifications[0],
        (0, ComponentProps::List(derive_rows(&expected_entries, "")))
    );
    assert_eq!(out.notifications[1], (1, ComponentProps::AddButton(false)));
}

#[test]
fn set_query_does_not_save_but_notifies() {
    let mut store = Store::new(state_of(&[("apple", "red")]));
    store.subscribe(ComponentType::AddButton(4));
    let out = store.update(StoreAction::StateUpdate(Action::SetQuery(String::from("pear"))));
    assert!(out.save.is_none());
    assert_eq!(out.notifications, vec![(4, ComponentProps::AddButton(true))]);
}

#[test]
fn add_then_remove_saves_twice_and_restores_the_view() {
    let mut store = Store::new(state_of(&[("apple", "red")]));
    store.subscribe(ComponentType::List(0));
    let before = store.update(StoreAction::StateUpdate(Action::SetQuery(String::new())));
    let added = store.update(StoreAction::StateUpdate(Action::AddNewEntry(
        String::from("cherry"),
        String::from("red"),
    )));
    let removed = store.update(StoreAction::StateUpdate(Action::RemoveEntry(String::from(
        "cherry",
    ))));
    assert!(added.save.is_some());
    assert!(removed.save.is_some());
    assert_eq!(removed.notifications, before.notifications);
}

#[test]
fn process_all_applies_requests_in_arrival_order() {
    let mut store = Store::new(State::empty());
    let outs = store.process_all(vec![
        StoreAction::Subscribe(ComponentType::List(0)),
        StoreAction::StateUpdate(Action::AddNewEntry(String::from("apple"), String::from("red"))),
        StoreAction::StateUpdate(Action::SetQuery(String::from("z"))),
        StoreAction::StateUpdate(Action::RemoveEntry(String::from("apple"))),
    ]);
    assert_eq!(outs.len(), 4);
    assert!(outs[0].save.is_none());
    assert!(outs[1].save.is_some());
    assert!(outs[2].save.is_none());
    assert!(outs[3].save.is_some());
    // after the addition, the list sees the new entry
    assert_eq!(
        outs[1].notifications,
        vec![(0, ComponentProps::List(vec![RowVariant::Heading('A'), data("apple", "red")]))]
    );
    // once the query filters everything out, the list is empty
    assert_eq!(outs[2].notifications, vec![(0, ComponentProps::List(vec![]))]);
}

#[test]
fn can_add_requires_fresh_nonempty_query() {
    let mut st = state_of(&[("apple", "red")]);
    assert!(!can_add(&st));
    st.set_query(String::from("pear"));
    assert!(can_add(&st));
    st.set_query(String::from("apple"));
    assert!(!can_add(&st));
}

#[test]
fn render_routes_only_matching_variants() {
    let list = ComponentType::List(3);
    assert_eq!(
        list.render(ComponentProps::AddButton(true)),
        None
    );
    assert_eq!(
        list.render(ComponentProps::List(vec![])),
        Some((3, ComponentProps::List(vec![])))
    );
}
