//! The dispatch step and subscriber registry.
//!
//! Every mutation and subscription request is applied through one ordered
//! `update` step: the action is applied to the canonical state, the
//! snapshot to persist is produced when the entries changed, and every
//! registered subscriber's selector is re-run against the new state. The
//! caller — a single-consumer event loop — performs the returned effects:
//! it writes the snapshot and pushes each notification to its view binding.

use vstd::prelude::*;
use vstd::pervasive::unreached;

use crate::rows::RowModel;
use crate::rows::RowVariant;
use crate::rows::derive_rows;
use crate::rows::rows_view;
use crate::rows::spec_derive_rows;
use crate::snapshot::encode_snapshot;
use crate::snapshot::spec_encode_snapshot;
use crate::state::Action;
use crate::state::ActionModel;
use crate::state::State;
use crate::state::StateModel;
use crate::state::action_allowed;
use crate::state::action_persists;
use crate::state::entries_view;
use crate::state::lemma_map_of_contains;
use crate::state::map_of;
use crate::state::step_state;

verus! {

/// The view model pushed to a component: the derived rows for the list,
/// the enabled flag for the add button.
#[derive(Debug, PartialEq, Eq)]
pub enum ComponentProps {
    List(Vec<RowVariant>),
    AddButton(bool),
}

/// The mathematical model of a view model.
#[verifier::ext_equal]
pub enum PropsModel {
    List(Seq<RowModel>),
    AddButton(bool),
}

impl View for ComponentProps {
    type V = PropsModel;

    open spec fn view(&self) -> PropsModel {
        match self {
            ComponentProps::List(rows) => PropsModel::List(rows_view(rows@)),
            ComponentProps::AddButton(b) => PropsModel::AddButton(*b),
        }
    }
}

/// A render target: the component kind, carrying the identifier of its
/// view binding, by which the rendering layer routes what it is handed.
#[derive(Clone, Copy, Debug, PartialEq, Eq, Structural)]
pub enum ComponentType {
    List(u64),
    AddButton(u64),
}

/// The props variant agrees with the component kind.
pub open spec fn variants_match(c: ComponentType, p: PropsModel) -> bool {
    match c {
        ComponentType::List(_) => p is List,
        ComponentType::AddButton(_) => p is AddButton,
    }
}

impl ComponentType {
    /// The identifier of the bound view.
    pub open spec fn spec_binding(&self) -> u64 {
        match self {
            ComponentType::List(b) => *b,
            ComponentType::AddButton(b) => *b,
        }
    }

    /// The identifier of the bound view.
    pub fn binding(&self) -> (b: u64)
        ensures
            b == self.spec_binding(),
    {
        match self {
            ComponentType::List(b) => *b,
            ComponentType::AddButton(b) => *b,
        }
    }

    /// Routes props to this component: the binding and the props when the
    /// variants agree, and nothing otherwise — a mismatched dispatch is
    /// silently dropped.
    pub fn render(&self, props: ComponentProps) -> (r: Option<(u64, ComponentProps)>)
        ensures
            variants_match(*self, props@) ==> (r matches Some(n) && n.0 == self.spec_binding()
                && n.1 == props),
            !variants_match(*self, props@) ==> r is None,
    {
        let agrees: bool = match (self, &props) {
            (ComponentType::List(_), ComponentProps::List(_)) => true,
            (ComponentType::AddButton(_), ComponentProps::AddButton(_)) => true,
            _ => false,
        };
        if agrees {
            Some((self.binding(), props))
        } else {
            None
        }
    }
}

/// The add affordance is enabled: the query is non-empty and names no
/// existing entry.
pub open spec fn spec_can_add(s: StateModel) -> bool {
    s.query.len() != 0 && !map_of(s.entries).contains_key(s.query)
}

/// Whether a new entry may be created from the current query: the query is
/// non-empty and no entry carries it as its key.
pub fn can_add(state: &State) -> (r: bool)
    ensures
        r == spec_can_add(state@),
{
    if state.query.as_str().is_empty() {
        return false;
    }
    let n = state.rows_by_id.len();
    let mut i: usize = 0;
    while i < n
        invariant
            0 <= i <= n,
            n == state.rows_by_id@.len(),
            forall|j: int| 0 <= j < i ==> entries_view(state.rows_by_id@)[j].key != state.query@,
        decreases n - i,
    {
        if state.rows_by_id[i].key == state.query {
            proof {
                assert(entries_view(state.rows_by_id@)[i as int].key == state@.query);
                lemma_map_of_contains(state@.entries, state@.query);
            }
            return false;
        }
        i += 1;
    }
    proof {
        lemma_map_of_contains(state@.entries, state@.query);
    }
    true
}

/// The selector of a component kind, as a function of the state model.
pub open spec fn spec_select(c: ComponentType, s: StateModel) -> PropsModel {
    match c {
        ComponentType::List(_) => PropsModel::List(spec_derive_rows(s.entries, s.query)),
        ComponentType::AddButton(_) => PropsModel::AddButton(spec_can_add(s)),
    }
}

/// Runs the selector fixed by the component kind against the state.
pub fn select_props(component: &ComponentType, state: &State) -> (props: ComponentProps)
    requires
        state.wf(),
    ensures
        props@ == spec_select(*component, state@),
{
    match component {
        ComponentType::List(_) => ComponentProps::List(
            derive_rows(&state.rows_by_id, state.query.as_str()),
        ),
        ComponentType::AddButton(_) => ComponentProps::AddButton(can_add(state)),
    }
}

/// One registration: a render target whose selector is fixed by its kind —
/// the list receives the derived rows, the add button the creation flag.
pub struct Subscriber {
    component: ComponentType,
}

impl View for Subscriber {
    type V = ComponentType;

    closed spec fn view(&self) -> ComponentType {
        self.component
    }
}

/// The notification a subscriber receives from a state: its binding and
/// the selector's output.
pub open spec fn note_of(c: ComponentType, s: StateModel) -> (u64, PropsModel) {
    (c.spec_binding(), spec_select(c, s))
}

impl Subscriber {
    /// Registers the render target.
    pub fn new(component: ComponentType) -> (s: Subscriber)
        ensures
            s@ == component,
    {
        Subscriber { component }
    }

    /// Runs the selector against the state and routes the result to the
    /// component.
    fn notify(&self, state: &State) -> (n: (u64, ComponentProps))
        requires
            state.wf(),
        ensures
            n.0 == self@.spec_binding(),
            n.1@ == spec_select(self@, state@),
    {
        let props = select_props(&self.component, state);
        proof {
            assert(variants_match(self.component, props@));
        }
        match self.component.render(props) {
            Some(n) => n,
            None => unreached(),
        }
    }
}

/// The model of one notification.
pub open spec fn note_view(n: (u64, ComponentProps)) -> (u64, PropsModel) {
    (n.0, n.1@)
}

/// The models of a notification list.
pub open spec fn notes_view(ns: Seq<(u64, ComponentProps)>) -> Seq<(u64, PropsModel)> {
    ns.map_values(|n: (u64, ComponentProps)| note_view(n))
}

/// The registered render targets.
pub open spec fn subs_view(ss: Seq<Subscriber>) -> Seq<ComponentType> {
    ss.map_values(|s: Subscriber| s@)
}

/// What every registered subscriber is sent from a state, in registration
/// order.
pub open spec fn spec_notifications(subs: Seq<ComponentType>, s: StateModel) -> Seq<
    (u64, PropsModel),
> {
    subs.map_values(|c: ComponentType| note_of(c, s))
}

/// A request to the dispatch loop: apply an action, or register a
/// subscriber.
pub enum StoreAction {
    StateUpdate(Action),
    Subscribe(ComponentType),
}

/// The mathematical model of a request.
#[verifier::ext_equal]
pub enum StoreActionModel {
    StateUpdate(ActionModel),
    Subscribe(ComponentType),
}

impl View for StoreAction {
    type V = StoreActionModel;

    open spec fn view(&self) -> StoreActionModel {
        match self {
            StoreAction::StateUpdate(a) => StoreActionModel::StateUpdate(a@),
            StoreAction::Subscribe(c) => StoreActionModel::Subscribe(*c),
        }
    }
}

/// A request is acceptable when its action is.
pub open spec fn store_allowed(a: StoreActionModel) -> bool {
    match a {
        StoreActionModel::StateUpdate(act) => action_allowed(act),
        StoreActionModel::Subscribe(_) => true,
    }
}

/// The effects of one processed request, for the event loop to perform:
/// the encoded snapshot to persist, when the entries changed, and the
/// notifications to push, in order.
pub struct StoreOutput {
    pub save: Option<String>,
    pub notifications: Vec<(u64, ComponentProps)>,
}

/// The mathematical model of a request's effects.
#[verifier::ext_equal]
pub struct OutputModel {
    pub save: Option<Seq<char>>,
    pub notes: Seq<(u64, PropsModel)>,
}

impl View for StoreOutput {
    type V = OutputModel;

    open spec fn view(&self) -> OutputModel {
        OutputModel {
            save: match self.save {
                Some(s) => Some(s@),
                None => None,
            },
            notes: notes_view(self.notifications@),
        }
    }
}

/// The store: the canonical state and the subscriber registry.
pub struct Store {
    state: State,
    subscribers: Vec<Subscriber>,
}

/// The mathematical model of the store.
#[verifier::ext_equal]
pub struct StoreModel {
    pub state: StateModel,
    pub subs: Seq<ComponentType>,
}

impl View for Store {
    type V = StoreModel;

    closed spec fn view(&self) -> StoreModel {
        StoreModel { state: self.state@, subs: subs_view(self.subscribers@) }
    }
}

/// The store after a request: a mutation steps the state, a subscription
/// appends the registration.
pub open spec fn step_store(m: StoreModel, a: StoreActionModel) -> StoreModel {
    match a {
        StoreActionModel::StateUpdate(act) => StoreModel {
            state: step_state(m.state, act),
            subs: m.subs,
        },
        StoreActionModel::Subscribe(c) => StoreModel { state: m.state, subs: m.subs.push(c) },
    }
}

/// The effects a request produces: a mutation persists the new entries
/// when it changed them and notifies every subscriber with the new state;
/// a subscription notifies the new subscriber at once, then every
/// subscriber, the new one included, with the unchanged state.
pub open spec fn store_output(m: StoreModel, a: StoreActionModel) -> OutputModel {
    match a {
        StoreActionModel::StateUpdate(act) => OutputModel {
            save: if action_persists(act) {
                Some(spec_encode_snapshot(step_state(m.state, act).entries))
            } else {
                None
            },
            notes: spec_notifications(m.subs, step_state(m.state, act)),
        },
        StoreActionModel::Subscribe(c) => OutputModel {
            save: None,
            notes: seq![note_of(c, m.state)] + spec_notifications(m.subs.push(c), m.state),
        },
    }
}

/// The store after a whole batch of requests, applied in order.
pub open spec fn run_store(m: StoreModel, acts: Seq<StoreActionModel>) -> StoreModel
    decreases acts.len(),
{
    if acts.len() == 0 {
        m
    } else {
        step_store(run_store(m, acts.drop_last()), acts.last())
    }
}

/// The models of a request list.
pub open spec fn store_actions_view(s: Seq<StoreAction>) -> Seq<StoreActionModel> {
    s.map_values(|a: StoreAction| a@)
}

impl Store {
    /// The structural invariant: the state invariant holds.
    pub closed spec fn wf(&self) -> bool {
        self.state.wf()
    }

    /// A store over the given state, with no subscribers yet.
    pub fn new(state: State) -> (s: Store)
        requires
            state.wf(),
        ensures
            s.wf(),
            s@.state == state@,
            s@.subs == Seq::<ComponentType>::empty(),
    {
        let s = Store { state, subscribers: Vec::new() };
        proof {
            assert(subs_view(s.subscribers@) =~= Seq::<ComponentType>::empty());
        }
        s
    }

    /// Re-runs every subscriber's selector against the current state, in
    /// registration order.
    fn notify(&self) -> (ns: Vec<(u64, ComponentProps)>)
        requires
            self.wf(),
        ensures
            notes_view(ns@) == spec_notifications(self@.subs, self@.state),
    {
        let mut ns: Vec<(u64, ComponentProps)> = Vec::new();
        let n = self.subscribers.len();
        let mut i: usize = 0;
        proof {
            assert(notes_view(ns@) =~~= spec_notifications(
                subs_view(self.subscribers@.subrange(0, 0)),
                self@.state,
            ));
        }
        while i < n
            invariant
                0 <= i <= n,
                n == self.subscribers@.len(),
                self.wf(),
                notes_view(ns@) == spec_notifications(
                    subs_view(self.subscribers@.subrange(0, i as int)),
                    self@.state,
                ),
            decreases n - i,
        {
            let note = self.subscribers[i].notify(&self.state);
            let ghost before = notes_view(ns@);
            ns.push(note);
            proof {
                assert(notes_view(ns@) =~~= before.push(note_view(note)));
                assert(subs_view(self.subscribers@.subrange(0, i + 1)) =~= subs_view(
                    self.subscribers@.subrange(0, i as int),
                ).push(self.subscribers@[i as int]@));
                assert(spec_notifications(
                    subs_view(self.subscribers@.subrange(0, i + 1)),
                    self@.state,
                ) =~~= spec_notifications(
                    subs_view(self.subscribers@.subrange(0, i as int)),
                    self@.state,
                ).push(note_of(self.subscribers@[i as int]@, self@.state)));
            }
            i += 1;
        }
        proof {
            assert(self.subscribers@.subrange(0, n as int) =~= self.subscribers@);
        }
        ns
    }

    /// Registers the render target and notifies it at once, so that a
    /// newly attached view is never blank before the first external event.
    /// The immediate notification is returned for the event loop to push.
    pub fn subscribe(&mut self, component: ComponentType) -> (first: (u64, ComponentProps))
        requires
            old(self).wf(),
        ensures
            final (self).wf(),
            final (self)@.state == old(self)@.state,
            final (self)@.subs == old(self)@.subs.push(component),
            first.0 == component.spec_binding(),
            first.1@ == spec_select(component, old(self)@.state),
    {
        let new_subscriber = Subscriber::new(component);
        let first = new_subscriber.notify(&self.state);
        let ghost before = subs_view(self.subscribers@);
        self.subscribers.push(new_subscriber);
        proof {
            assert(subs_view(self.subscribers@) =~= before.push(component));
        }
        first
    }

    /// Applies one request in full: the action against the state, the
    /// persistence payload when the entries changed, and the notifications
    /// for every subscriber, in order.
    pub fn update(&mut self, action: StoreAction) -> (out: StoreOutput)
        requires
            old(self).wf(),
            store_allowed(action@),
        ensures
            final (self).wf(),
            final (self)@ == step_store(old(self)@, action@),
            out@ == store_output(old(self)@, action@),
    {
        match action {
            StoreAction::StateUpdate(act) => {
                let persist = self.state.update(act);
                let save: Option<String> = if persist {
                    Some(encode_snapshot(&self.state.rows_by_id))
                } else {
                    None
                };
                let notifications = self.notify();
                let out = StoreOutput { save, notifications };
                proof {
                    assert(final (self)@ =~~= step_store(old(self)@, action@));
                    assert(out@ =~~= store_output(old(self)@, action@));
                }
                out
            },
            StoreAction::Subscribe(component) => {
                let first = self.subscribe(component);
                let mut rest = self.notify();
                let mut notifications: Vec<(u64, ComponentProps)> = Vec::new();
                notifications.push(first);
                let ghost rest_notes = notes_view(rest@);
                notifications.append(&mut rest);
                let out = StoreOutput { save: None, notifications };
                proof {
                    assert(notes_view(out.notifications@) =~~= seq![note_view(first)]
                        + rest_notes);
                    assert(final (self)@ =~~= step_store(old(self)@, action@));
                    assert(out@ =~~= store_output(old(self)@, action@));
                }
                out
            },
        }
    }

    /// Drains a batch of requests in arrival order. Each request is
    /// applied atomically against the state its predecessors left, so the
    /// batch observes one total order over all mutations, and the effects
    /// come back in the same order.
    pub fn process_all(&mut self, actions: Vec<StoreAction>) -> (outs: Vec<StoreOutput>)
        requires
            old(self).wf(),
            forall|i: int|
                0 <= i < actions@.len() ==> store_allowed(#[trigger] store_actions_view(
                    actions@,
                )[i]),
        ensures
            final (self).wf(),
            final (self)@ == run_store(old(self)@, store_actions_view(actions@)),
            outs@.len() == actions@.len(),
            forall|i: int|
                0 <= i < actions@.len() ==> #[trigger] outs@[i]@ == store_output(
                    run_store(old(self)@, store_actions_view(actions@).take(i)),
                    store_actions_view(actions@)[i],
                ),
    {
        let ghost m0 = old(self)@;
        let ghost av = store_actions_view(actions@);
        let mut actions = actions;
        let mut outs: Vec<StoreOutput> = Vec::new();
        let ghost mut k: int = 0;
        proof {
            assert(av.take(0) =~= Seq::<StoreActionModel>::empty());
            assert(store_actions_view(actions@) =~= av.skip(0));
        }
        while actions.len() > 0
            invariant
                0 <= k <= av.len(),
                k + actions@.len() == av.len(),
                store_actions_view(actions@) == av.skip(k),
                forall|i: int| 0 <= i < av.len() ==> store_allowed(#[trigger] av[i]),
                self.wf(),
                self@ == run_store(m0, av.take(k)),
                outs@.len() == k,
                forall|i: int|
                    0 <= i < k ==> #[trigger] outs@[i]@ == store_output(
                        run_store(m0, av.take(i)),
                        av[i],
                    ),
            decreases actions@.len(),
        {
            let ghost actions_before = actions@;
            let a = actions.remove(0);
            proof {
                assert(store_actions_view(actions_before)[0] == a@);
                assert(a@ == av[k]);
                assert(store_actions_view(actions@) =~= store_actions_view(
                    actions_before,
                ).drop_first());
                assert(store_actions_view(actions@) =~= av.skip(k + 1));
            }
            let out = self.update(a);
            outs.push(out);
            proof {
                assert(av.take(k + 1).drop_last() =~= av.take(k));
                assert(av.take(k + 1).last() == av[k]);
                assert(self@ == run_store(m0, av.take(k + 1)));
                k = k + 1;
            }
        }
        proof {
            assert(av.take(k) =~= av);
        }
        outs
    }
}

} // verus!
