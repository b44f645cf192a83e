//! The canonical state: a mapping of snippet keys to values plus the
//! current search query.
//!
//! The mapping is held as a vector of entries with pairwise-distinct,
//! non-empty keys; its mathematical model is a `Map` from key characters to
//! value characters. Mutations keep the invariant and report whether the
//! snapshot must be persisted.

use vstd::prelude::*;

verus! {

/// One stored snippet: a key naming it and its text (or file-reference) value.
#[derive(Debug, PartialEq, Eq)]
pub struct Entry {
    pub key: String,
    pub value: String,
}

/// The mathematical model of an entry: its key and value as character
/// sequences.
#[verifier::ext_equal]
pub struct EntryModel {
    pub key: Seq<char>,
    pub value: Seq<char>,
}

impl View for Entry {
    type V = EntryModel;

    open spec fn view(&self) -> EntryModel {
        EntryModel { key: self.key@, value: self.value@ }
    }
}

/// The models of a sequence of entries.
pub open spec fn entries_view(es: Seq<Entry>) -> Seq<EntryModel> {
    es.map_values(|e: Entry| e@)
}

/// Appending an entry appends its model.
pub proof fn lemma_entries_view_push(es: Seq<Entry>, e: Entry)
    ensures
        entries_view(es.push(e)) == entries_view(es).push(e@),
{
    assert(entries_view(es.push(e)) =~~= entries_view(es).push(e@));
}

/// The keys of the entries are pairwise distinct.
pub open spec fn unique_keys(es: Seq<EntryModel>) -> bool {
    forall|i: int, j: int| 0 <= i < j < es.len() ==> es[i].key != es[j].key
}

/// Every entry has a non-empty key.
pub open spec fn nonempty_keys(es: Seq<EntryModel>) -> bool {
    forall|i: int| 0 <= i < es.len() ==> es[i].key.len() > 0
}

/// The mapping that a sequence of entries denotes; later entries win.
pub open spec fn map_of(es: Seq<EntryModel>) -> Map<Seq<char>, Seq<char>>
    decreases es.len(),
{
    if es.len() == 0 {
        Map::empty()
    } else {
        map_of(es.drop_last()).insert(es.last().key, es.last().value)
    }
}

/// The entries with the given key removed; the order of the rest is kept.
pub open spec fn remove_key(es: Seq<EntryModel>, k: Seq<char>) -> Seq<EntryModel>
    decreases es.len(),
{
    if es.len() == 0 {
        es
    } else if es.last().key == k {
        remove_key(es.drop_last(), k)
    } else {
        remove_key(es.drop_last(), k).push(es.last())
    }
}

/// A key is in the denoted mapping exactly when some entry carries it.
pub proof fn lemma_map_of_contains(es: Seq<EntryModel>, k: Seq<char>)
    ensures
        map_of(es).contains_key(k) <==> exists|i: int| 0 <= i < es.len() && es[i].key == k,
    decreases es.len(),
{
    if es.len() > 0 {
        lemma_map_of_contains(es.drop_last(), k);
        if map_of(es).contains_key(k) && es.last().key != k {
            let i = choose|i: int| 0 <= i < es.drop_last().len() && es.drop_last()[i].key == k;
            assert(es[i].key == k);
        }
        if exists|i: int| 0 <= i < es.len() && es[i].key == k {
            let i = choose|i: int| 0 <= i < es.len() && es[i].key == k;
            if i < es.len() - 1 {
                assert(es.drop_last()[i].key == k);
            }
        }
    }
}

/// Removing a key from the entries removes it from the denoted mapping.
pub proof fn lemma_remove_key_map(es: Seq<EntryModel>, k: Seq<char>)
    ensures
        map_of(remove_key(es, k)) == map_of(es).remove(k),
    decreases es.len(),
{
    if es.len() == 0 {
        assert(map_of(remove_key(es, k)) =~= map_of(es).remove(k));
    } else {
        lemma_remove_key_map(es.drop_last(), k);
        if es.last().key == k {
            assert(map_of(es).remove(k) =~= map_of(es.drop_last()).remove(k));
        } else {
            let r = remove_key(es.drop_last(), k);
            assert(r.push(es.last()).drop_last() =~= r);
            assert(r.push(es.last()).last() == es.last());
            assert(map_of(es).remove(k) =~= map_of(es.drop_last()).remove(k).insert(
                es.last().key,
                es.last().value,
            ));
        }
    }
}

/// What `remove_key` keeps: exactly the entries whose key differs from `k`,
/// in their original order; distinctness and non-emptiness of keys carry
/// over.
pub proof fn lemma_remove_key_entries(es: Seq<EntryModel>, k: Seq<char>)
    ensures
        forall|i: int|
            0 <= i < remove_key(es, k).len() ==> #[trigger] remove_key(es, k)[i].key != k,
        forall|i: int|
            0 <= i < remove_key(es, k).len() ==> exists|j: int|
                0 <= j < es.len() && #[trigger] remove_key(es, k)[i] == es[j],
        unique_keys(es) ==> unique_keys(remove_key(es, k)),
        nonempty_keys(es) ==> nonempty_keys(remove_key(es, k)),
        remove_key(es, k).len() <= es.len(),
    decreases es.len(),
{
    if es.len() > 0 {
        lemma_remove_key_entries(es.drop_last(), k);
        let r = remove_key(es, k);
        let rd = remove_key(es.drop_last(), k);
        if es.last().key != k {
            assert forall|i: int| 0 <= i < r.len() implies exists|j: int|
                0 <= j < es.len() && #[trigger] r[i] == es[j] by {
                if i < rd.len() {
                    let j = choose|j: int|
                        0 <= j < es.drop_last().len() && #[trigger] rd[i] == es.drop_last()[j];
                    assert(r[i] == es[j]);
                } else {
                    assert(r[i] == es[es.len() - 1]);
                }
            }
            if unique_keys(es) {
                assert forall|i: int, j: int| 0 <= i < j < r.len() implies r[i].key != r[j].key by {
                    if j < rd.len() {
                    } else {
                        let m = choose|m: int|
                            0 <= m < es.drop_last().len() && #[trigger] rd[i] == es.drop_last()[m];
                        assert(es[m] == r[i]);
                        assert(r[j] == es[es.len() - 1]);
                    }
                }
            }
        }
    }
}

/// When no entry carries the key, `remove_key` changes nothing.
pub proof fn lemma_remove_key_absent(es: Seq<EntryModel>, k: Seq<char>)
    requires
        forall|i: int| 0 <= i < es.len() ==> es[i].key != k,
    ensures
        remove_key(es, k) == es,
    decreases es.len(),
{
    if es.len() > 0 {
        assert(forall|i: int| 0 <= i < es.drop_last().len() ==> es.drop_last()[i].key != k);
        lemma_remove_key_absent(es.drop_last(), k);
        assert(remove_key(es, k) =~= es);
    }
}

/// When the keys are distinct and the entry at `i` carries the key,
/// `remove_key` removes exactly that position.
pub proof fn lemma_remove_key_at(es: Seq<EntryModel>, k: Seq<char>, i: int)
    requires
        unique_keys(es),
        0 <= i < es.len(),
        es[i].key == k,
    ensures
        remove_key(es, k) == es.remove(i),
    decreases es.len(),
{
    if i == es.len() - 1 {
        assert(forall|j: int|
            0 <= j < es.drop_last().len() ==> #[trigger] es.drop_last()[j].key != k);
        lemma_remove_key_absent(es.drop_last(), k);
        assert(remove_key(es, k) =~= es.remove(i));
    } else {
        assert(es.drop_last()[i].key == k);
        lemma_remove_key_at(es.drop_last(), k, i);
        assert(es.last().key != k);
        assert(remove_key(es, k) =~= es.remove(i));
    }
}

/// A request to change the canonical state.
pub enum Action {
    SetQuery(String),
    AddNewEntry(String, String),
    RemoveEntry(String),
}

/// The mathematical model of an action.
pub enum ActionModel {
    SetQuery(Seq<char>),
    AddNewEntry(Seq<char>, Seq<char>),
    RemoveEntry(Seq<char>),
}

impl View for Action {
    type V = ActionModel;

    open spec fn view(&self) -> ActionModel {
        match self {
            Action::SetQuery(q) => ActionModel::SetQuery(q@),
            Action::AddNewEntry(k, v) => ActionModel::AddNewEntry(k@, v@),
            Action::RemoveEntry(k) => ActionModel::RemoveEntry(k@),
        }
    }
}

/// The mathematical model of the canonical state.
#[verifier::ext_equal]
pub struct StateModel {
    pub entries: Seq<EntryModel>,
    pub query: Seq<char>,
}

/// The state after an action has been applied.
pub open spec fn step_state(m: StateModel, a: ActionModel) -> StateModel {
    match a {
        ActionModel::SetQuery(q) => StateModel { entries: m.entries, query: q },
        ActionModel::AddNewEntry(k, v) => StateModel {
            entries: remove_key(m.entries, k).push(EntryModel { key: k, value: v }),
            query: m.query,
        },
        ActionModel::RemoveEntry(k) => StateModel {
            entries: remove_key(m.entries, k),
            query: m.query,
        },
    }
}

/// Whether applying the action must be followed by a persistence save.
pub open spec fn action_persists(a: ActionModel) -> bool {
    match a {
        ActionModel::SetQuery(_) => false,
        ActionModel::AddNewEntry(_, _) => true,
        ActionModel::RemoveEntry(_) => true,
    }
}

/// An action is acceptable when a new entry's key is non-empty; the
/// creation affordance in the caller enforces this.
pub open spec fn action_allowed(a: ActionModel) -> bool {
    match a {
        ActionModel::AddNewEntry(k, _) => k.len() > 0,
        _ => true,
    }
}

/// The canonical state: the entries mapping and the current query.
pub struct State {
    pub rows_by_id: Vec<Entry>,
    pub query: String,
}

impl View for State {
    type V = StateModel;

    open spec fn view(&self) -> StateModel {
        StateModel { entries: entries_view(self.rows_by_id@), query: self.query@ }
    }
}

impl State {
    /// The structural invariant: keys are pairwise distinct and non-empty.
    pub open spec fn wf(&self) -> bool {
        unique_keys(self@.entries) && nonempty_keys(self@.entries)
    }

    /// A state with no entries and an empty query.
    pub fn empty() -> (s: State)
        ensures
            s.wf(),
            s@.entries == Seq::<EntryModel>::empty(),
            s@.query == Seq::<char>::empty(),
    {
        let s = State { rows_by_id: Vec::new(), query: String::new() };
        proof {
            assert(s@.entries =~= Seq::<EntryModel>::empty());
        }
        s
    }

    /// Applies the action and reports whether the snapshot must be saved.
    pub fn update(&mut self, action: Action) -> (persist: bool)
        requires
            old(self).wf(),
            action_allowed(action@),
        ensures
            final(self).wf(),
            final(self)@ == step_state(old(self)@, action@),
            persist == action_persists(action@),
    {
        match action {
            Action::SetQuery(payload) => {
                self.set_query(payload);
                false
            },
            Action::AddNewEntry(key, value) => {
                self.add(key, value);
                true
            },
            Action::RemoveEntry(key) => {
                self.remove(key);
                true
            },
        }
    }

    /// Inserts the entry, overwriting any entry with the same key, and
    /// leaves the mapping with the key bound to the value.
    pub fn add(&mut self, key: String, value: String)
        requires
            old(self).wf(),
            key@.len() > 0,
        ensures
            final(self).wf(),
            final(self)@.entries == remove_key(old(self)@.entries, key@).push(
                EntryModel { key: key@, value: value@ },
            ),
            map_of(final(self)@.entries) == map_of(old(self)@.entries).insert(key@, value@),
            final(self)@.query == old(self)@.query,
    {
        let ghost es0 = self@.entries;
        self.remove_entry_vec(&key);
        self.rows_by_id.push(Entry { key, value });
        proof {
            assert(self@.entries =~= remove_key(es0, key@).push(
                EntryModel { key: key@, value: value@ },
            ));
            lemma_remove_key_entries(es0, key@);
            let es1 = self@.entries;
            assert forall|i: int, j: int| 0 <= i < j < es1.len() implies es1[i].key
                != es1[j].key by {
                if j == es1.len() - 1 {
                    assert(remove_key(es0, key@)[i].key != key@);
                }
            }
            assert(es1.drop_last() =~= remove_key(es0, key@));
            lemma_remove_key_map(es0, key@);
            assert(map_of(es1) =~= map_of(es0).insert(key@, value@));
        }
    }

    /// Replaces the current query; the entries are untouched.
    pub fn set_query(&mut self, query: String)
        ensures
            final(self)@.entries == old(self)@.entries,
            final(self)@.query == query@,
            old(self).wf() ==> final(self).wf(),
    {
        self.query = query;
    }

    /// Deletes the entry with the key if present; absent keys are a no-op.
    pub fn remove(&mut self, key: String)
        requires
            old(self).wf(),
        ensures
            final(self).wf(),
            final(self)@.entries == remove_key(old(self)@.entries, key@),
            map_of(final(self)@.entries) == map_of(old(self)@.entries).remove(key@),
            final(self)@.query == old(self)@.query,
    {
        let ghost es0 = self@.entries;
        self.remove_entry_vec(&key);
        proof {
            lemma_remove_key_entries(es0, key@);
            lemma_remove_key_map(es0, key@);
        }
    }

    /// Removes the unique entry whose key matches, if any.
    fn remove_entry_vec(&mut self, key: &String)
        requires
            old(self).wf(),
        ensures
            final(self).wf(),
            final(self)@.entries == remove_key(old(self)@.entries, key@),
            final(self)@.query == old(self)@.query,
    {
        let ghost es0 = self@.entries;
        let n = self.rows_by_id.len();
        let mut i: usize = 0;
        while i < n
            invariant
                self == old(self),
                old(self).wf(),
                es0 == self@.entries,
                n == self.rows_by_id@.len(),
                0 <= i <= n,
                forall|j: int| 0 <= j < i ==> entries_view(self.rows_by_id@)[j].key != key@,
            decreases n - i,
        {
            if self.rows_by_id[i].key == *key {
                let ghost idx = i as int;
                self.rows_by_id.remove(i);
                proof {
                    lemma_remove_key_at(es0, key@, idx);
                    assert(self@.entries =~= es0.remove(idx));
                }
                return ;
            }
            i += 1;
        }
        proof {
            lemma_remove_key_absent(es0, key@);
            assert(self@.entries =~= es0);
        }
    }
}

} // verus!
